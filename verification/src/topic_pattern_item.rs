//! One level of a topic pattern: a literal, `+`, `#`, `{name}` or `{name:#}`.
use vstd::prelude::*;

use crate::text::{append_str, chars_of, has_char, push_char, string_of_range};

verus! {

/// Abstract value of a [`TopicPatternItem`].
pub enum ItemView {
    /// A literal level.
    Str(Seq<char>),
    /// A single-level wildcard, possibly named.
    Plus(Option<Seq<char>>),
    /// A multi-level wildcard, possibly named.
    Hash(Option<Seq<char>>),
}

/// Abstract value of a [`TopicPatternError`].
pub enum PatternErrorView {
    HashPosition(Seq<char>),
    WildcardUsage(Seq<char>),
    EmptyTopic,
    PatternStructureMismatch(Seq<char>, Seq<char>),
}

/// The message shown for a pattern error.
pub open spec fn pattern_error_text(e: PatternErrorView) -> Seq<char> {
    match e {
        PatternErrorView::HashPosition(p) => "Invalid topic pattern '"@ + p
            + "': # wildcard can only be the last segment"@,
        PatternErrorView::WildcardUsage(u) => "Invalid wildcard usage: "@ + u,
        PatternErrorView::EmptyTopic => "Topic pattern cannot be empty"@,
        PatternErrorView::PatternStructureMismatch(o, c) => "Topic pattern structure mismatch.\nOriginal: '"@
            + o + "'\nCustom:   '"@ + c
            + "'\nHint: Both patterns must have the same parameter structure (same wildcards in same positions)"@,
    }
}

/// Error types for topic pattern parsing
#[derive(Debug, Clone, PartialEq, Eq)]
pub enum TopicPatternError {
    /// Hash wildcard (#) used not at the end of the pattern
    HashPosition {
        /// The invalid pattern
        pattern: String,
    },
    /// Wildcard characters (+ or #) used incorrectly
    WildcardUsage {
        /// Description of invalid usage
        usage: String,
    },
    /// Empty topic is not valid
    EmptyTopic,
    /// Topic pattern structure mismatch when trying to use compatible pattern
    PatternStructureMismatch {
        /// Original pattern
        original: String,
        /// Custom pattern that does not match
        custom: String,
    },
}

impl View for TopicPatternError {
    type V = PatternErrorView;

    open spec fn view(&self) -> PatternErrorView {
        match self {
            TopicPatternError::HashPosition { pattern } => PatternErrorView::HashPosition(
                pattern@,
            ),
            TopicPatternError::WildcardUsage { usage } => PatternErrorView::WildcardUsage(usage@),
            TopicPatternError::EmptyTopic => PatternErrorView::EmptyTopic,
            TopicPatternError::PatternStructureMismatch { original, custom } =>
                PatternErrorView::PatternStructureMismatch(original@, custom@),
        }
    }
}

impl TopicPatternError {
    /// Creates a new HashPosition error
    pub fn hash_position(pattern: &str) -> (r: Self)
        ensures
            r@ == PatternErrorView::HashPosition(pattern@),
    {
        TopicPatternError::HashPosition { pattern: pattern.to_owned() }
    }

    /// Creates a new WildcardUsage error
    pub fn wildcard_usage(usage: &str) -> (r: Self)
        ensures
            r@ == PatternErrorView::WildcardUsage(usage@),
    {
        TopicPatternError::WildcardUsage { usage: usage.to_owned() }
    }

    /// Creates a new PatternStructureMismatch error
    pub fn pattern_mismatch(original: &str, custom: &str) -> (r: Self)
        ensures
            r@ == PatternErrorView::PatternStructureMismatch(original@, custom@),
    {
        TopicPatternError::PatternStructureMismatch {
            original: original.to_owned(),
            custom: custom.to_owned(),
        }
    }

    /// Returns true if this error is a validation error (client-side):
    /// every pattern error is one.
    pub fn is_validation_error(&self) -> (r: bool)
        ensures
            r,
    {
        true
    }

    /// The message shown for the error.
    pub fn message(&self) -> (r: String)
        ensures
            r@ == pattern_error_text(self@),
    {
        let mut r = String::new();
        match self {
            TopicPatternError::HashPosition { pattern } => {
                append_str(&mut r, "Invalid topic pattern '");
                append_str(&mut r, pattern.as_str());
                append_str(&mut r, "': # wildcard can only be the last segment");
            },
            TopicPatternError::WildcardUsage { usage } => {
                append_str(&mut r, "Invalid wildcard usage: ");
                append_str(&mut r, usage.as_str());
            },
            TopicPatternError::EmptyTopic => {
                append_str(&mut r, "Topic pattern cannot be empty");
            },
            TopicPatternError::PatternStructureMismatch { original, custom } => {
                append_str(&mut r, "Topic pattern structure mismatch.\nOriginal: '");
                append_str(&mut r, original.as_str());
                append_str(&mut r, "'\nCustom:   '");
                append_str(&mut r, custom.as_str());
                append_str(
                    &mut r,
                    "'\nHint: Both patterns must have the same parameter structure (same wildcards in same positions)",
                );
            },
        }
        proof {
            assert(r@ =~= pattern_error_text(self@));
        }
        r
    }

    /// Returns the error type for categorization
    pub fn error_type(&self) -> (r: &'static str)
        ensures
            r@ == (match self@ {
                PatternErrorView::HashPosition(_) => "hash_position"@,
                PatternErrorView::WildcardUsage(_) => "wildcard_usage"@,
                PatternErrorView::EmptyTopic => "empty_topic"@,
                PatternErrorView::PatternStructureMismatch(_, _) => "pattern_structure_mismatch"@,
            }),
    {
        match self {
            TopicPatternError::HashPosition { .. } => "hash_position",
            TopicPatternError::WildcardUsage { .. } => "wildcard_usage",
            TopicPatternError::EmptyTopic => "empty_topic",
            TopicPatternError::PatternStructureMismatch { .. } => "pattern_structure_mismatch",
        }
    }
}

/// MQTT topic pattern segment: literal string or wildcard
#[derive(Debug, Clone, PartialEq, Eq, Hash)]
pub enum TopicPatternItem {
    /// Literal string segment
    Str(String),
    /// Single-level wildcard `+` or named `{param}`
    Plus(Option<String>),
    /// Multi-level wildcard `#` or named `{param:#}`
    Hash(Option<String>),
}

/// The view of an optional name.
pub open spec fn opt_view(o: Option<String>) -> Option<Seq<char>> {
    match o {
        Some(s) => Some(s@),
        None => None,
    }
}

impl View for TopicPatternItem {
    type V = ItemView;

    open spec fn view(&self) -> ItemView {
        match self {
            TopicPatternItem::Str(s) => ItemView::Str(s@),
            TopicPatternItem::Plus(n) => ItemView::Plus(opt_view(*n)),
            TopicPatternItem::Hash(n) => ItemView::Hash(opt_view(*n)),
        }
    }
}

/// The text of an item as an MQTT broker sees it: the literal, `+` or `#`.
pub open spec fn item_mqtt_text(it: ItemView) -> Seq<char> {
    match it {
        ItemView::Str(s) => s,
        ItemView::Plus(_) => seq!['+'],
        ItemView::Hash(_) => seq!['#'],
    }
}

/// The text of an item in template form: the literal, `+`, `#`, `{name}` or
/// `{name:#}`.
pub open spec fn item_template_text(it: ItemView) -> Seq<char> {
    match it {
        ItemView::Str(s) => s,
        ItemView::Plus(None) => seq!['+'],
        ItemView::Hash(None) => seq!['#'],
        ItemView::Plus(Some(n)) => seq!['{'] + n + seq!['}'],
        ItemView::Hash(Some(n)) => seq!['{'] + n + seq![':', '#', '}'],
    }
}

/// The parameter name of a named wildcard.
pub open spec fn item_name(it: ItemView) -> Option<Seq<char>> {
    match it {
        ItemView::Plus(n) => n,
        ItemView::Hash(n) => n,
        ItemView::Str(_) => None,
    }
}

/// The item is `+` or `#`, named or not.
pub open spec fn item_is_wildcard(it: ItemView) -> bool {
    it is Plus || it is Hash
}

/// `s` starts with `c`.
pub open spec fn starts_with_char(s: Seq<char>, c: char) -> bool {
    s.len() > 0 && s[0] == c
}

/// `s` ends with `suf`.
pub open spec fn ends_with(s: Seq<char>, suf: Seq<char>) -> bool {
    s.len() >= suf.len() && s.subrange(s.len() - suf.len(), s.len() as int) == suf
}

/// `s` with every leading `{` removed (`trim_start_matches('{')`).
pub open spec fn trim_open(s: Seq<char>) -> Seq<char>
    decreases s.len(),
{
    if s.len() > 0 && s[0] == '{' {
        trim_open(s.drop_first())
    } else {
        s
    }
}

/// `s` with every trailing copy of the non-empty `suf` removed
/// (`trim_end_matches(suf)`).
pub open spec fn trim_close(s: Seq<char>, suf: Seq<char>) -> Seq<char>
    decreases s.len(),
{
    if suf.len() > 0 && ends_with(s, suf) {
        trim_close(s.subrange(0, s.len() - suf.len()), suf)
    } else {
        s
    }
}

/// The suffix `:#}` of a named multi-level wildcard.
pub open spec fn hash_close() -> Seq<char> {
    seq![':', '#', '}']
}

/// The suffix `}` of a named single-level wildcard.
pub open spec fn plus_close() -> Seq<char> {
    seq!['}']
}

/// What parsing one level gives.
pub open spec fn spec_parse_item(seg: Seq<char>) -> Result<ItemView, PatternErrorView> {
    if seg == seq!['+'] {
        Ok(ItemView::Plus(None))
    } else if seg == seq!['#'] {
        Ok(ItemView::Hash(None))
    } else if starts_with_char(seg, '{') && ends_with(seg, hash_close()) {
        let inner = trim_close(trim_open(seg), hash_close());
        if inner.len() == 0 {
            Err(PatternErrorView::WildcardUsage(seg))
        } else {
            Ok(ItemView::Hash(Some(inner)))
        }
    } else if starts_with_char(seg, '{') && ends_with(seg, plus_close()) {
        let inner = trim_close(trim_open(seg), plus_close());
        if inner.len() == 0 {
            Err(PatternErrorView::WildcardUsage(seg))
        } else {
            Ok(ItemView::Plus(Some(inner)))
        }
    } else if has_char(seg, '+') || has_char(seg, '#') {
        Err(PatternErrorView::WildcardUsage(seg))
    } else {
        Ok(ItemView::Str(seg))
    }
}

/// Dropping the leading `{` characters of `s[a..]` one by one.
proof fn lemma_trim_open_step(s: Seq<char>, a: int, to: int)
    requires
        0 <= a < to <= s.len(),
        s[a] == '{',
    ensures
        trim_open(s.subrange(a, to)) == trim_open(s.subrange(a + 1, to)),
{
    assert(s.subrange(a, to).drop_first() =~= s.subrange(a + 1, to));
}

/// Dropping one trailing copy of `suf` from `s[a..b]`.
proof fn lemma_trim_close_step(s: Seq<char>, a: int, b: int, suf: Seq<char>)
    requires
        0 <= a <= b <= s.len(),
        suf.len() > 0,
        b - a >= suf.len(),
        s.subrange(b - suf.len(), b) == suf,
    ensures
        trim_close(s.subrange(a, b), suf) == trim_close(s.subrange(a, b - suf.len()), suf),
{
    let t = s.subrange(a, b);
    assert(t.subrange(t.len() - suf.len(), t.len() as int) =~= s.subrange(b - suf.len(), b));
    assert(t.subrange(0, t.len() - suf.len()) =~= s.subrange(a, b - suf.len()));
}

/// `cs[from..to]` equals `lit`.
fn range_equals(cs: &Vec<char>, from: usize, to: usize, lit: &Vec<char>) -> (r: bool)
    requires
        from <= to <= cs.len(),
    ensures
        r == (cs@.subrange(from as int, to as int) == lit@),
{
    if to - from != lit.len() {
        return false;
    }
    let mut i: usize = 0;
    while i < lit.len()
        invariant
            to - from == lit.len(),
            from <= to <= cs.len(),
            0 <= i <= lit.len(),
            forall|k: int| 0 <= k < i ==> cs@[from + k] == lit@[k],
        decreases lit.len() - i,
    {
        if cs[from + i] != lit[i] {
            assert(cs@.subrange(from as int, to as int)[i as int] != lit@[i as int]);
            return false;
        }
        i = i + 1;
    }
    assert(cs@.subrange(from as int, to as int) =~= lit@);
    true
}

/// `cs[from..to]` holds `c`.
fn range_has_char(cs: &Vec<char>, from: usize, to: usize, c: char) -> (r: bool)
    requires
        from <= to <= cs.len(),
    ensures
        r == has_char(cs@.subrange(from as int, to as int), c),
{
    let mut i = from;
    while i < to
        invariant
            from <= i <= to <= cs.len(),
            forall|k: int| from <= k < i ==> cs@[k] != c,
        decreases to - i,
    {
        if cs[i] == c {
            assert(cs@.subrange(from as int, to as int)[i - from] == c);
            return true;
        }
        i = i + 1;
    }
    proof {
        let t = cs@.subrange(from as int, to as int);
        assert forall|k: int| 0 <= k < t.len() implies t[k] != c by {
            assert(t[k] == cs@[from + k]);
        }
    }
    false
}

/// `cs[from..to]` ends with `suf`, and its start `a` and end `b` once the
/// leading `{` characters and then every trailing copy of `suf` are trimmed.
fn trimmed_bounds(cs: &Vec<char>, from: usize, to: usize, suf: &Vec<char>) -> (r: (usize, usize))
    requires
        from <= to <= cs.len(),
        suf.len() > 0,
    ensures
        from <= r.0 <= r.1 <= to,
        cs@.subrange(r.0 as int, r.1 as int) == trim_close(
            trim_open(cs@.subrange(from as int, to as int)),
            suf@,
        ),
{
    let mut a = from;
    while a < to && cs[a] == '{'
        invariant
            from <= a <= to <= cs.len(),
            trim_open(cs@.subrange(from as int, to as int)) == trim_open(
                cs@.subrange(a as int, to as int),
            ),
        decreases to - a,
    {
        proof {
            lemma_trim_open_step(cs@, a as int, to as int);
        }
        a = a + 1;
    }
    proof {
        let t = cs@.subrange(a as int, to as int);
        if t.len() > 0 {
            assert(t[0] == cs@[a as int]);
        }
    }
    let mut b = to;
    while b - a >= suf.len() && range_equals(cs, b - suf.len(), b, suf)
        invariant
            from <= a <= b <= to <= cs.len(),
            suf.len() > 0,
            trim_close(trim_open(cs@.subrange(from as int, to as int)), suf@) == trim_close(
                cs@.subrange(a as int, b as int),
                suf@,
            ),
        decreases b,
    {
        proof {
            lemma_trim_close_step(cs@, a as int, b as int, suf@);
        }
        b = b - suf.len();
    }
    proof {
        let t = cs@.subrange(a as int, b as int);
        if t.len() >= suf@.len() {
            assert(t.subrange(t.len() - suf@.len(), t.len() as int) =~= cs@.subrange(
                b - suf@.len(),
                b as int,
            ));
        }
    }
    (a, b)
}

/// Parses the level `cs[from..to]` of a pattern.
pub fn parse_level(cs: &Vec<char>, from: usize, to: usize) -> (r: Result<
    TopicPatternItem,
    TopicPatternError,
>)
    requires
        from <= to <= cs.len(),
    ensures
        match r {
            Ok(it) => spec_parse_item(cs@.subrange(from as int, to as int)) == Ok::<
                ItemView,
                PatternErrorView,
            >(it@),
            Err(e) => spec_parse_item(cs@.subrange(from as int, to as int)) == Err::<
                ItemView,
                PatternErrorView,
            >(e@),
        },
{
    let ghost seg = cs@.subrange(from as int, to as int);
    let plus = vec!['+'];
    let hash = vec!['#'];
    let hsuf = vec![':', '#', '}'];
    let psuf = vec!['}'];
    assert(hsuf@ == hash_close());
    assert(psuf@ == plus_close());
    if range_equals(cs, from, to, &plus) {
        assert(plus@ =~= seq!['+']);
        return Ok(TopicPatternItem::Plus(None));
    }
    assert(plus@ =~= seq!['+']);
    if range_equals(cs, from, to, &hash) {
        assert(hash@ =~= seq!['#']);
        return Ok(TopicPatternItem::Hash(None));
    }
    assert(hash@ =~= seq!['#']);
    let opens = to > from && cs[from] == '{';
    assert(opens == starts_with_char(seg, '{')) by {
        if seg.len() > 0 {
            assert(seg[0] == cs@[from as int]);
        }
    }
    let ends_hash = to - from >= 3 && range_equals(cs, to - 3, to, &hsuf);
    assert(ends_hash == ends_with(seg, hash_close())) by {
        if seg.len() >= 3 {
            assert(seg.subrange(seg.len() - 3, seg.len() as int) =~= cs@.subrange(
                to - 3,
                to as int,
            ));
        }
    }
    if opens && ends_hash {
        let (a, b) = trimmed_bounds(cs, from, to, &hsuf);
        if a == b {
            let usage = string_of_range(cs, from, to);
            return Err(TopicPatternError::WildcardUsage { usage });
        }
        let name = string_of_range(cs, a, b);
        return Ok(TopicPatternItem::Hash(Some(name)));
    }
    let ends_close = to - from >= 1 && cs[to - 1] == '}';
    assert(ends_close == ends_with(seg, plus_close())) by {
        if seg.len() >= 1 {
            assert(seg.subrange(seg.len() - 1, seg.len() as int) =~= seq![cs@[to - 1]]);
        }
    }
    if opens && ends_close {
        let (a, b) = trimmed_bounds(cs, from, to, &psuf);
        if a == b {
            let usage = string_of_range(cs, from, to);
            return Err(TopicPatternError::WildcardUsage { usage });
        }
        let name = string_of_range(cs, a, b);
        return Ok(TopicPatternItem::Plus(Some(name)));
    }
    if range_has_char(cs, from, to, '+') || range_has_char(cs, from, to, '#') {
        let usage = string_of_range(cs, from, to);
        return Err(TopicPatternError::WildcardUsage { usage });
    }
    let lit = string_of_range(cs, from, to);
    Ok(TopicPatternItem::Str(lit))
}

impl TopicPatternItem {
    /// Parses one level of a topic pattern.
    pub fn try_from(item: &str) -> (r: Result<TopicPatternItem, TopicPatternError>)
        ensures
            match r {
                Ok(it) => spec_parse_item(item@) == Ok::<ItemView, PatternErrorView>(it@),
                Err(e) => spec_parse_item(item@) == Err::<ItemView, PatternErrorView>(e@),
            },
    {
        let cs = chars_of(item);
        assert(cs@.subrange(0, cs@.len() as int) =~= item@);
        parse_level(&cs, 0, cs.len())
    }

    /// Returns string representation of the pattern item.
    pub fn as_str(&self) -> (r: &str)
        ensures
            r@ == item_mqtt_text(self@),
    {
        match self {
            TopicPatternItem::Str(s) => s.as_str(),
            TopicPatternItem::Plus(_) => {
                proof {
                    reveal_strlit("+");
                }
                "+"
            },
            TopicPatternItem::Hash(_) => {
                proof {
                    reveal_strlit("#");
                }
                "#"
            },
        }
    }

    /// Returns pattern representation with named parameters in braces.
    pub fn as_wildcard(&self) -> (r: String)
        ensures
            r@ == item_template_text(self@),
    {
        match self {
            TopicPatternItem::Str(s) => s.clone(),
            TopicPatternItem::Plus(None) => {
                let mut r = String::new();
                push_char(&mut r, '+');
                assert(r@ =~= seq!['+']);
                r
            },
            TopicPatternItem::Hash(None) => {
                let mut r = String::new();
                push_char(&mut r, '#');
                assert(r@ =~= seq!['#']);
                r
            },
            TopicPatternItem::Plus(Some(name)) => {
                let mut r = String::new();
                push_char(&mut r, '{');
                append_str(&mut r, name.as_str());
                push_char(&mut r, '}');
                assert(r@ =~= seq!['{'] + name@ + seq!['}']);
                r
            },
            TopicPatternItem::Hash(Some(name)) => {
                let mut r = String::new();
                push_char(&mut r, '{');
                append_str(&mut r, name.as_str());
                push_char(&mut r, ':');
                push_char(&mut r, '#');
                push_char(&mut r, '}');
                assert(r@ =~= seq!['{'] + name@ + seq![':', '#', '}']);
                r
            },
        }
    }

    /// Returns parameter name for named wildcards.
    pub fn param_name(&self) -> (r: Option<String>)
        ensures
            opt_view(r) == item_name(self@),
    {
        match self {
            TopicPatternItem::Plus(Some(name)) => Some(name.clone()),
            TopicPatternItem::Hash(Some(name)) => Some(name.clone()),
            _ => None,
        }
    }

    /// Returns true if this item is a wildcard (+ or #).
    pub fn is_wildcard(&self) -> (r: bool)
        ensures
            r == item_is_wildcard(self@),
    {
        match self {
            TopicPatternItem::Str(_) => false,
            _ => true,
        }
    }

    /// The item is the multi-level wildcard.
    pub fn is_hash(&self) -> (r: bool)
        ensures
            r == (self@ is Hash),
    {
        match self {
            TopicPatternItem::Hash(_) => true,
            _ => false,
        }
    }
}

} // verus!
