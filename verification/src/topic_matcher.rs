//! The topic matching tree: subscriber tables stored under topic patterns,
//! found again for concrete topics.
use vstd::prelude::*;

use crate::subscription_table::{SubscriptionId, SubscriptionTable};
use crate::text::{append_str, same_text};
use crate::topic_match::{TopicPath, decimal, strings_view, usize_text};
use crate::topic_pattern_item::{ItemView, TopicPatternItem};
use crate::topic_pattern_path::{TopicPatternPath, hash_only_last, items_view, topic_matches};

verus! {

/// Abstract value of a [`TopicMatcherError`].
pub enum MatcherErrorView {
    EmptyTopicPath,
    InvalidSegment(Seq<char>, usize),
    InvalidUtf8(Seq<char>),
}

/// The pattern up to its first `#`, that included: an update follows a
/// path no further than its first `#`.
pub open spec fn upto_first_hash(items: Seq<ItemView>) -> Seq<ItemView>
    decreases items.len(),
{
    if items.len() == 0 {
        items
    } else if items[0] is Hash {
        seq![items[0]]
    } else {
        seq![items[0]] + upto_first_hash(items.drop_first())
    }
}

/// Before the first `#`, the cut pattern follows the pattern.
pub proof fn lemma_upto_prefix(items: Seq<ItemView>, j: int)
    requires
        0 <= j <= items.len(),
        forall|k: int| 0 <= k < j ==> !((#[trigger] items[k]) is Hash),
    ensures
        upto_first_hash(items) == items.take(j) + upto_first_hash(items.skip(j)),
    decreases j,
{
    if j == 0 {
        assert(items.skip(0) =~= items);
        assert(items.take(0) + upto_first_hash(items) =~= upto_first_hash(items));
    } else {
        let d = items.drop_first();
        assert forall|k: int| 0 <= k < j - 1 implies !((#[trigger] d[k]) is Hash) by {
            assert(d[k] == items[k + 1]);
        }
        lemma_upto_prefix(d, j - 1);
        assert(d.skip(j - 1) =~= items.skip(j));
        assert(items.take(j) =~= seq![items[0]] + d.take(j - 1));
        assert(!(items[0] is Hash));
        assert(upto_first_hash(items) == seq![items[0]] + upto_first_hash(d));
        assert(seq![items[0]] + (d.take(j - 1) + upto_first_hash(items.skip(j))) =~= items.take(j)
            + upto_first_hash(items.skip(j)));
    }
}

/// A pattern with `#` at most at its end is not cut.
pub proof fn lemma_upto_whole(items: Seq<ItemView>)
    requires
        hash_only_last(items),
    ensures
        upto_first_hash(items) == items,
{
    if items.len() > 0 {
        let n = items.len() - 1;
        lemma_upto_prefix(items, n);
        let rest = items.skip(n);
        assert(rest =~= seq![items[n]]);
        assert(rest.drop_first() =~= Seq::<ItemView>::empty());
        assert(upto_first_hash(rest.drop_first()) == rest.drop_first());
        assert(seq![items[n]] + Seq::<ItemView>::empty() =~= seq![items[n]]);
        assert(upto_first_hash(rest) == seq![items[n]]);
        assert(items.take(n) + seq![items[n]] =~= items);
    } else {
        assert(upto_first_hash(items) == items);
    }
}

/// Errors that can occur during topic matching operations
#[derive(Debug, Clone, PartialEq, Eq)]
pub enum TopicMatcherError {
    /// Topic path provided for matching is empty
    EmptyTopicPath,
    /// Invalid topic segment encountered during matching
    InvalidSegment { segment: String, position: usize },
    /// Topic path contains invalid UTF-8 characters
    InvalidUtf8 { details: String },
}

impl View for TopicMatcherError {
    type V = MatcherErrorView;

    open spec fn view(&self) -> MatcherErrorView {
        match self {
            TopicMatcherError::EmptyTopicPath => MatcherErrorView::EmptyTopicPath,
            TopicMatcherError::InvalidSegment { segment, position } =>
                MatcherErrorView::InvalidSegment(segment@, *position),
            TopicMatcherError::InvalidUtf8 { details } => MatcherErrorView::InvalidUtf8(details@),
        }
    }
}

/// The message shown for a matcher error.
pub open spec fn matcher_error_text(e: MatcherErrorView) -> Seq<char> {
    match e {
        MatcherErrorView::EmptyTopicPath => "Topic path cannot be empty for matching"@,
        MatcherErrorView::InvalidSegment(seg, pos) => "Invalid topic segment '"@ + seg
            + "' at position "@ + decimal(pos as nat),
        MatcherErrorView::InvalidUtf8(d) => "Topic path contains invalid UTF-8: "@ + d,
    }
}

impl TopicMatcherError {
    /// The message shown for the error.
    pub fn message(&self) -> (r: String)
        ensures
            r@ == matcher_error_text(self@),
    {
        let mut r = String::new();
        match self {
            TopicMatcherError::EmptyTopicPath => {
                append_str(&mut r, "Topic path cannot be empty for matching");
            },
            TopicMatcherError::InvalidSegment { segment, position } => {
                append_str(&mut r, "Invalid topic segment '");
                append_str(&mut r, segment.as_str());
                append_str(&mut r, "' at position ");
                let digits = usize_text(*position);
                append_str(&mut r, digits.as_str());
            },
            TopicMatcherError::InvalidUtf8 { details } => {
                append_str(&mut r, "Topic path contains invalid UTF-8: ");
                append_str(&mut r, details.as_str());
            },
        }
        proof {
            assert(r@ =~= matcher_error_text(self@));
        }
        r
    }

    /// Creates a new InvalidSegment error
    pub fn invalid_segment(segment: &str, position: usize) -> (r: Self)
        ensures
            r@ == MatcherErrorView::InvalidSegment(segment@, position),
    {
        TopicMatcherError::InvalidSegment { segment: segment.to_owned(), position }
    }

    /// Creates a new InvalidUtf8 error
    pub fn invalid_utf8(details: &str) -> (r: Self)
        ensures
            r@ == MatcherErrorView::InvalidUtf8(details@),
    {
        TopicMatcherError::InvalidUtf8 { details: details.to_owned() }
    }

    /// Returns true if this error is recoverable: only an invalid segment is.
    pub fn is_recoverable(&self) -> (r: bool)
        ensures
            r == (self@ is InvalidSegment),
    {
        match self {
            TopicMatcherError::EmptyTopicPath => false,
            TopicMatcherError::InvalidSegment { .. } => true,
            TopicMatcherError::InvalidUtf8 { .. } => false,
        }
    }

    /// Returns the error type for categorization
    pub fn error_type(&self) -> (r: &'static str)
        ensures
            r@ == (match self@ {
                MatcherErrorView::EmptyTopicPath => "empty_topic_path"@,
                MatcherErrorView::InvalidSegment(_, _) => "invalid_segment"@,
                MatcherErrorView::InvalidUtf8(_) => "invalid_utf8"@,
            }),
    {
        match self {
            TopicMatcherError::EmptyTopicPath => "empty_topic_path",
            TopicMatcherError::InvalidSegment { .. } => "invalid_segment",
            TopicMatcherError::InvalidUtf8 { .. } => "invalid_utf8",
        }
    }
}

/// An item with its wildcard name dropped.
pub open spec fn erase_item(it: ItemView) -> ItemView {
    match it {
        ItemView::Str(s) => ItemView::Str(s),
        ItemView::Plus(_) => ItemView::Plus(None),
        ItemView::Hash(_) => ItemView::Hash(None),
    }
}

/// A pattern with its wildcard names dropped: the shape under which the
/// tree stores subscriptions.
pub open spec fn erase(k: Seq<ItemView>) -> Seq<ItemView> {
    Seq::new(k.len(), |i: int| erase_item(k[i]))
}

/// A table stored in the tree is well formed and not empty.
pub open spec fn table_ok<T>(o: Option<SubscriptionTable<T>>) -> bool {
    match o {
        Some(t) => t.wf() && t.spec_entries().len() > 0,
        None => true,
    }
}

/// No two children carry the same label.
pub open spec fn labels_distinct<T>(children: Seq<(String, Box<TopicMatcherNode<T>>)>) -> bool {
    forall|a: int, b: int|
        0 <= a < b < children.len() ==> (#[trigger] children[a]).0@ != (#[trigger] children[b]).0@
}

/// The index of the child labelled `s`, or -1.
pub open spec fn label_index<T>(children: Seq<(String, Box<TopicMatcherNode<T>>)>, s: Seq<char>) -> int {
    if exists|i: int| 0 <= i < children.len() && (#[trigger] children[i]).0@ == s {
        choose|i: int| 0 <= i < children.len() && (#[trigger] children[i]).0@ == s
    } else {
        -1
    }
}

/// Node in the topic matching tree that represents a part of the topic path.
#[derive(Debug)]
pub struct TopicMatcherNode<T> {
    /// Data for exact topic segment match
    exact_match_data: Option<SubscriptionTable<T>>,
    /// Children nodes for exact matches of next segment
    exact_children: Vec<(String, Box<TopicMatcherNode<T>>)>,
    /// Node for '+' pattern wildcard match (single segment)
    plus_wildcard_node: Option<Box<TopicMatcherNode<T>>>,
    /// Data for '#' pattern wildcard match (multiple segments)
    hash_wildcard_data: Option<SubscriptionTable<T>>,
}

impl<T> TopicMatcherNode<T> {
    /// The table stored under the pattern `key` (names of wildcards are
    /// ignored).
    pub closed spec fn lookup(&self, key: Seq<ItemView>) -> Option<SubscriptionTable<T>>
        decreases key.len(),
    {
        if key.len() == 0 {
            self.exact_match_data
        } else {
            match key[0] {
                ItemView::Str(s) => {
                    let c = label_index(self.exact_children@, s);
                    if c >= 0 {
                        self.exact_children@[c].1.lookup(key.drop_first())
                    } else {
                        None
                    }
                },
                ItemView::Plus(_) => match self.plus_wildcard_node {
                    Some(b) => b.lookup(key.drop_first()),
                    None => None,
                },
                ItemView::Hash(_) => if key.len() == 1 {
                    self.hash_wildcard_data
                } else {
                    None
                },
            }
        }
    }

    /// The node holds no data and no children (what `is_empty` tests).
    pub closed spec fn structurally_empty(&self) -> bool {
        &&& match self.exact_match_data {
            Some(t) => t.spec_entries().len() == 0,
            None => true,
        }
        &&& self.exact_children@.len() == 0
        &&& self.plus_wildcard_node is None
        &&& match self.hash_wildcard_data {
            Some(t) => t.spec_entries().len() == 0,
            None => true,
        }
    }

    /// Labels are distinct, stored tables are well formed and not empty, and
    /// every child is well formed and not empty.
    pub closed spec fn wf(&self) -> bool
        decreases self,
    {
        &&& labels_distinct(self.exact_children@)
        &&& table_ok(self.exact_match_data)
        &&& table_ok(self.hash_wildcard_data)
        &&& forall|i: int|
            0 <= i < self.exact_children@.len() ==> (#[trigger] self.exact_children@[i]).1.wf()
                && !self.exact_children@[i].1.structurally_empty()
        &&& match self.plus_wildcard_node {
            Some(b) => b.wf() && !b.structurally_empty(),
            None => true,
        }
    }

    /// Creates a new empty topic matcher node
    pub fn new() -> (r: Self)
        ensures
            r.wf(),
            r.structurally_empty(),
            forall|k: Seq<ItemView>| #[trigger] r.lookup(k) is None,
    {
        let r = TopicMatcherNode {
            exact_match_data: None,
            exact_children: Vec::new(),
            plus_wildcard_node: None,
            hash_wildcard_data: None,
        };
        proof {
            assert forall|k: Seq<ItemView>| #[trigger] r.lookup(k) is None by {
                r.lemma_empty_lookup(k);
            }
        }
        r
    }

    /// Whether the node holds no data and no children.
    pub fn is_empty(&self) -> (r: bool)
        ensures
            r == self.structurally_empty(),
    {
        let exact_empty = match &self.exact_match_data {
            Some(t) => t.has_no_entries(),
            None => true,
        };
        let hash_empty = match &self.hash_wildcard_data {
            Some(t) => t.has_no_entries(),
            None => true,
        };
        exact_empty && self.exact_children.len() == 0 && self.plus_wildcard_node.is_none()
            && hash_empty
    }

    /// An empty well-formed node stores nothing.
    proof fn lemma_empty_lookup(&self, k: Seq<ItemView>)
        requires
            self.structurally_empty(),
            self.exact_match_data is None,
            self.hash_wildcard_data is None,
        ensures
            self.lookup(k) is None,
    {
    }

    /// In a well-formed tree, a node is empty exactly when it stores nothing.
    pub proof fn lemma_empty_iff_no_key(&self)
        requires
            self.wf(),
        ensures
            self.structurally_empty() <==> forall|k: Seq<ItemView>| #[trigger] self.lookup(k) is None,
        decreases self,
    {
        if self.structurally_empty() {
            assert forall|k: Seq<ItemView>| #[trigger] self.lookup(k) is None by {
                self.lemma_empty_lookup(k);
            }
        } else {
            if self.exact_match_data is Some {
                assert(self.lookup(Seq::<ItemView>::empty()) is Some);
            } else if self.hash_wildcard_data is Some {
                let k = seq![ItemView::Hash(None)];
                assert(self.lookup(k) is Some);
            } else if self.exact_children@.len() > 0 {
                let c = self.exact_children@[0];
                c.1.lemma_empty_iff_no_key();
                let k1 = choose|k: Seq<ItemView>| #[trigger] c.1.lookup(k) is Some;
                let k = seq![ItemView::Str(c.0@)] + k1;
                assert(k.drop_first() =~= k1);
                let li = label_index(self.exact_children@, c.0@);
                assert(li == 0) by {
                    if li != 0 {
                        assert(self.exact_children@[li].0@ == c.0@);
                    }
                }
                assert(self.lookup(k) is Some);
            } else {
                let b = self.plus_wildcard_node->Some_0;
                b.lemma_empty_iff_no_key();
                let k1 = choose|k: Seq<ItemView>| #[trigger] b.lookup(k) is Some;
                let k = seq![ItemView::Plus(None)] + k1;
                assert(k.drop_first() =~= k1);
                assert(self.lookup(k) is Some);
            }
        }
    }

    /// Lookup ignores the names of wildcards.
    pub proof fn lemma_lookup_erase(&self, k: Seq<ItemView>)
        ensures
            self.lookup(k) == self.lookup(erase(k)),
        decreases k.len(),
    {
        let e = erase(k);
        if k.len() > 0 {
            assert(e.drop_first() =~= erase(k.drop_first()));
            match k[0] {
                ItemView::Str(s) => {
                    let c = label_index(self.exact_children@, s);
                    if c >= 0 {
                        self.exact_children@[c].1.lemma_lookup_erase(k.drop_first());
                    }
                },
                ItemView::Plus(_) => {
                    match self.plus_wildcard_node {
                        Some(b) => b.lemma_lookup_erase(k.drop_first()),
                        None => {},
                    }
                },
                ItemView::Hash(_) => {},
            }
        }
    }

    /// The index of the child labelled `s`.
    fn find_child(&self, s: &String) -> (r: Option<usize>)
        requires
            labels_distinct(self.exact_children@),
        ensures
            match r {
                Some(c) => c < self.exact_children@.len() && c as int == label_index(
                    self.exact_children@,
                    s@,
                ),
                None => label_index(self.exact_children@, s@) == -1,
            },
    {
        let mut i: usize = 0;
        while i < self.exact_children.len()
            invariant
                0 <= i <= self.exact_children@.len(),
                labels_distinct(self.exact_children@),
                forall|k: int| 0 <= k < i ==> self.exact_children@[k].0@ != s@,
            decreases self.exact_children@.len() - i,
        {
            if same_text(&self.exact_children[i].0, s) {
                proof {
                    let ch = self.exact_children@;
                    assert(ch[i as int].0@ == s@);
                    let c = label_index(ch, s@);
                    assert(c == i) by {
                        if c != i {
                            assert(ch[c].0@ == s@);
                        }
                    }
                }
                return Some(i);
            }
            i = i + 1;
        }
        None
    }
}


/// The entries of a table after adding `(id, v)` to the table `o`, or to a
/// new table when there is none.
pub open spec fn inserted_entries<T>(o: Option<SubscriptionTable<T>>, id: SubscriptionId, v: T) -> Seq<
    (SubscriptionId, T),
> {
    match o {
        Some(t) => t.spec_entries().push((id, v)),
        None => seq![(id, v)],
    }
}

/// Two keys of the same shape that start with the same shape agree on their
/// rests.
pub proof fn lemma_erase_cons(k1: Seq<ItemView>, k2: Seq<ItemView>)
    requires
        k1.len() > 0,
        k2.len() > 0,
        erase_item(k1[0]) == erase_item(k2[0]),
    ensures
        (erase(k1) == erase(k2)) == (erase(k1.drop_first()) == erase(k2.drop_first())),
{
    if erase(k1) == erase(k2) {
        assert(erase(k1.drop_first()) =~= erase(k1).drop_first());
        assert(erase(k2.drop_first()) =~= erase(k2).drop_first());
    }
    if erase(k1.drop_first()) == erase(k2.drop_first()) {
        assert(erase(k1) =~= seq![erase_item(k1[0])] + erase(k1.drop_first()));
        assert(erase(k2) =~= seq![erase_item(k2[0])] + erase(k2.drop_first()));
    }
}

/// The child index of a label depends only on the labels.
proof fn lemma_label_index_same<T>(
    a: Seq<(String, Box<TopicMatcherNode<T>>)>,
    b: Seq<(String, Box<TopicMatcherNode<T>>)>,
    s: Seq<char>,
)
    requires
        labels_distinct(a),
        a.len() == b.len(),
        forall|j: int| 0 <= j < a.len() ==> (#[trigger] a[j]).0@ == b[j].0@,
    ensures
        label_index(a, s) == label_index(b, s),
        labels_distinct(b),
{
    assert forall|x: int, y: int| 0 <= x < y < b.len() implies (#[trigger] b[x]).0@ != (
    #[trigger] b[y]).0@ by {
        assert(a[x].0@ == b[x].0@);
        assert(a[y].0@ == b[y].0@);
    }
    if exists|i: int| 0 <= i < a.len() && (#[trigger] a[i]).0@ == s {
        let i = choose|i: int| 0 <= i < a.len() && (#[trigger] a[i]).0@ == s;
        assert(b[i].0@ == s);
        let j = label_index(b, s);
        assert(j == i) by {
            if j != i {
                assert(b[j].0@ == a[j].0@);
            }
        }
    } else {
        if exists|i: int| 0 <= i < b.len() && (#[trigger] b[i]).0@ == s {
            let i = choose|i: int| 0 <= i < b.len() && (#[trigger] b[i]).0@ == s;
            assert(a[i].0@ == s);
        }
    }
}

/// After appending a child with a new label, other labels keep their index
/// and the new label finds the new child.
proof fn lemma_label_index_push<T>(
    a: Seq<(String, Box<TopicMatcherNode<T>>)>,
    e: (String, Box<TopicMatcherNode<T>>),
    s: Seq<char>,
)
    requires
        labels_distinct(a),
        label_index(a, e.0@) == -1,
    ensures
        labels_distinct(a.push(e)),
        label_index(a.push(e), e.0@) == a.len(),
        s != e.0@ ==> label_index(a.push(e), s) == label_index(a, s),
{
    let b = a.push(e);
    assert forall|x: int| 0 <= x < a.len() implies (#[trigger] a[x]).0@ != e.0@ by {
        if a[x].0@ == e.0@ {
            assert(exists|i: int| 0 <= i < a.len() && (#[trigger] a[i]).0@ == e.0@);
        }
    }
    assert forall|x: int, y: int| 0 <= x < y < b.len() implies (#[trigger] b[x]).0@ != (
    #[trigger] b[y]).0@ by {
        if y < a.len() {
            assert(b[x] == a[x]);
            assert(b[y] == a[y]);
        } else {
            assert(b[x] == a[x]);
        }
    }
    assert(b[a.len() as int].0@ == e.0@);
    let j = label_index(b, e.0@);
    assert(j == a.len()) by {
        if j != a.len() {
            assert(b[j] == a[j]);
        }
    }
    if s != e.0@ {
        if exists|i: int| 0 <= i < a.len() && (#[trigger] a[i]).0@ == s {
            let i = choose|i: int| 0 <= i < a.len() && (#[trigger] a[i]).0@ == s;
            assert(b[i] == a[i]);
            let j2 = label_index(b, s);
            assert(j2 == i) by {
                if j2 != i {
                    if j2 < a.len() {
                        assert(b[j2] == a[j2]);
                    }
                }
            }
        } else {
            if exists|i: int| 0 <= i < b.len() && (#[trigger] b[i]).0@ == s {
                let i = choose|i: int| 0 <= i < b.len() && (#[trigger] b[i]).0@ == s;
                assert(b[i] == a[i]);
            }
        }
    }
}

impl<T> TopicMatcherNode<T> {
    /// Registers `(id, value)` under the pattern of `topic_path`, creating the
    /// nodes and the table on the way. Returns whether the pattern had no
    /// table before.
    pub fn subscribe_to_pattern(
        &mut self,
        topic_path: &crate::topic_pattern_path::TopicPatternPath,
        id: SubscriptionId,
        value: T,
    ) -> (was_absent: bool)
        requires
            old(self).wf(),
            hash_only_last(topic_path.spec_items()),
            old(self).lookup(topic_path.spec_items()) matches Some(t) ==> !t.has(id),
        ensures
            final(self).wf(),
            was_absent == old(self).lookup(topic_path.spec_items()) is None,
            final(self).lookup(topic_path.spec_items()) matches Some(t) && t.spec_entries()
                == inserted_entries(old(self).lookup(topic_path.spec_items()), id, value),
            forall|k: Seq<ItemView>|
                erase(k) != erase(topic_path.spec_items()) ==> #[trigger] final(self).lookup(k)
                    == old(self).lookup(k),
    {
        let items = topic_path.segments();
        proof {
            assert(items_view(items@).skip(0) =~= items_view(items@));
        }
        self.insert_from(items, 0, id, value)
    }

    /// Registers `(id, value)` under the pattern `items[i..]`.
    fn insert_from(&mut self, items: &Vec<TopicPatternItem>, i: usize, id: SubscriptionId, value: T) -> (was_absent: bool)
        requires
            old(self).wf(),
            hash_only_last(items_view(items@)),
            i <= items@.len(),
            old(self).lookup(items_view(items@).skip(i as int)) matches Some(t) ==> !t.has(id),
        ensures
            final(self).wf(),
            was_absent == old(self).lookup(items_view(items@).skip(i as int)) is None,
            final(self).lookup(items_view(items@).skip(i as int)) matches Some(t)
                && t.spec_entries() == inserted_entries(
                old(self).lookup(items_view(items@).skip(i as int)),
                id,
                value,
            ),
            forall|k: Seq<ItemView>|
                erase(k) != erase(items_view(items@).skip(i as int)) ==> #[trigger] final(self).lookup(k) == old(self).lookup(k),
        decreases items@.len() - i,
    {
        let ghost iv = items_view(items@);
        let ghost key = iv.skip(i as int);
        let ghost old_self = *self;
        if i == items.len() {
            assert(key.len() == 0);
            let r = match self.exact_match_data.take() {
                Some(mut t) => {
                    t.insert(id, value);
                    self.exact_match_data = Some(t);
                    false
                },
                None => {
                    let mut t = SubscriptionTable::new();
                    t.insert(id, value);
                    proof {
                        assert(t.spec_entries() =~= seq![(id, value)]);
                    }
                    self.exact_match_data = Some(t);
                    true
                },
            };
            proof {
                assert forall|k: Seq<ItemView>|
                    erase(k) != erase(key) implies #[trigger] self.lookup(k) == old_self.lookup(k) by {
                    if k.len() == 0 {
                        assert(erase(k) =~= erase(key));
                    }
                }
            }
            return r;
        }
        proof {
            assert(key[0] == iv[i as int]);
            assert(key.drop_first() =~= iv.skip(i + 1));
        }
        match &items[i] {
            TopicPatternItem::Str(s) => {
                let found = self.find_child(s);
                match found {
                    Some(c) => {
                        let ghost old_children = self.exact_children@;
                        let (label, mut child) = self.exact_children.remove(c);
                        proof {
                            assert(old_children[c as int] == (label, child));
                            assert(label@ == s@);
                        }
                        let r = child.insert_from(items, i + 1, id, value);
                        self.exact_children.insert(c, (label, child));
                        proof {
                            let new_children = self.exact_children@;
                            assert(new_children =~= old_children.update(c as int, (label, child)));
                            lemma_label_index_same(old_children, new_children, s@);
                            child.lemma_empty_iff_no_key();
                            assert forall|j: int| 0 <= j < new_children.len() implies (#[trigger] new_children[j]).1.wf()
                                && !new_children[j].1.structurally_empty() by {
                                if j != c {
                                    assert(new_children[j] == old_children[j]);
                                }
                            }
                            assert forall|k: Seq<ItemView>|
                                erase(k) != erase(key) implies #[trigger] self.lookup(k) == old_self.lookup(k) by {
                                if k.len() > 0 {
                                    match k[0] {
                                        ItemView::Str(s2) => {
                                            lemma_label_index_same(old_children, new_children, s2);
                                            let ci = label_index(old_children, s2);
                                            if ci == c {
                                                assert(s2 == s@);
                                                lemma_erase_cons(k, key);
                                                assert(erase(k.drop_first()) != erase(iv.skip(i + 1)));
                                                assert(new_children[c as int].1 == child);
                                                assert(self.lookup(k) == child.lookup(k.drop_first()));
                                                assert(old_self.lookup(k) == old_children[c as int].1.lookup(k.drop_first()));
                                            } else if ci >= 0 {
                                                assert(new_children[ci] == old_children[ci]);
                                            }
                                        },
                                        _ => {},
                                    }
                                }
                            }
                        }
                        r
                    },
                    None => {
                        let mut child = TopicMatcherNode::new();
                        let ghost fresh = child;
                        let r = child.insert_from(items, i + 1, id, value);
                        let ghost old_children = self.exact_children@;
                        let label = s.clone();
                        self.exact_children.push((label, Box::new(child)));
                        proof {
                            let new_children = self.exact_children@;
                            lemma_label_index_push(old_children, (label, Box::new(child)), s@);
                            child.lemma_empty_iff_no_key();
                            assert forall|j: int| 0 <= j < new_children.len() implies (#[trigger] new_children[j]).1.wf()
                                && !new_children[j].1.structurally_empty() by {
                                if j < old_children.len() {
                                    assert(new_children[j] == old_children[j]);
                                }
                            }
                            assert forall|k: Seq<ItemView>|
                                erase(k) != erase(key) implies #[trigger] self.lookup(k) == old_self.lookup(k) by {
                                if k.len() > 0 {
                                    match k[0] {
                                        ItemView::Str(s2) => {
                                            lemma_label_index_push(old_children, (label, Box::new(child)), s2);
                                            if s2 == s@ {
                                                lemma_erase_cons(k, key);
                                                assert(erase(k.drop_first()) != erase(iv.skip(i + 1)));
                                                assert(new_children[old_children.len() as int].1 == Box::new(child));
                                                assert(self.lookup(k) == child.lookup(k.drop_first()));
                                                assert(fresh.lookup(k.drop_first()) is None);
                                                assert(old_self.lookup(k) is None);
                                            } else {
                                                let ci = label_index(old_children, s2);
                                                if ci >= 0 {
                                                    assert(new_children[ci] == old_children[ci]);
                                                }
                                            }
                                        },
                                        _ => {},
                                    }
                                }
                            }
                        }
                        r
                    },
                }
            },
            TopicPatternItem::Plus(_) => {
                let mut node = match self.plus_wildcard_node.take() {
                    Some(b) => b,
                    None => Box::new(TopicMatcherNode::new()),
                };
                let ghost before = *node;
                let r = node.insert_from(items, i + 1, id, value);
                self.plus_wildcard_node = Some(node);
                proof {
                    node.lemma_empty_iff_no_key();
                    assert forall|k: Seq<ItemView>|
                        erase(k) != erase(key) implies #[trigger] self.lookup(k) == old_self.lookup(k) by {
                        if k.len() > 0 {
                            match k[0] {
                                ItemView::Plus(_) => {
                                    lemma_erase_cons(k, key);
                                    assert(erase(k.drop_first()) != erase(iv.skip(i + 1)));
                                    assert(self.lookup(k) == node.lookup(k.drop_first()));
                                    assert(node.lookup(k.drop_first()) == before.lookup(k.drop_first()));
                                    assert(old_self.lookup(k) == before.lookup(k.drop_first()));
                                },
                                _ => {},
                            }
                        }
                    }
                }
                r
            },
            TopicPatternItem::Hash(_) => {
                proof {
                    assert(i == items@.len() - 1) by {
                        if i < items@.len() - 1 {
                            assert(iv[i as int] is Hash);
                        }
                    }
                    assert(key.len() == 1);
                }
                let r = match self.hash_wildcard_data.take() {
                    Some(mut t) => {
                        t.insert(id, value);
                        self.hash_wildcard_data = Some(t);
                        false
                    },
                    None => {
                        let mut t = SubscriptionTable::new();
                        t.insert(id, value);
                        proof {
                            assert(t.spec_entries() =~= seq![(id, value)]);
                        }
                        self.hash_wildcard_data = Some(t);
                        true
                    },
                };
                proof {
                    assert forall|k: Seq<ItemView>|
                        erase(k) != erase(key) implies #[trigger] self.lookup(k) == old_self.lookup(k) by {
                        if k.len() == 1 && k[0] is Hash {
                            assert(erase(k) =~= erase(key));
                        }
                    }
                }
                r
            },
        }
    }
}


/// The position of `id` among the entries (unique when ids are distinct).
pub open spec fn index_of_id<T>(entries: Seq<(SubscriptionId, T)>, id: SubscriptionId) -> int {
    choose|i: int| 0 <= i < entries.len() && (#[trigger] entries[i]).0 == id
}

/// What is stored under a pattern after an update gave table `t`: nothing
/// when `t` is empty, else `t`.
pub open spec fn updated_slot<T>(t: SubscriptionTable<T>) -> Option<SubscriptionTable<T>> {
    if t.spec_entries().len() == 0 {
        None
    } else {
        Some(t)
    }
}

/// An update can be applied to every well-formed table and gives a
/// well-formed table.
pub open spec fn update_fits<T, F: Fn(SubscriptionTable<T>) -> SubscriptionTable<T>>(f: F) -> bool {
    &&& forall|t: SubscriptionTable<T>| t.wf() ==> #[trigger] call_requires(f, (t,))
    &&& forall|t: SubscriptionTable<T>, t2: SubscriptionTable<T>|
        #[trigger] call_ensures(f, (t,), t2) ==> t2.wf()
}

/// The table with subscription `id` taken out.
pub fn table_without<T>(t: SubscriptionTable<T>, id: SubscriptionId) -> (r: SubscriptionTable<T>)
    requires
        t.wf(),
    ensures
        r.wf(),
        r.spec_entries() == removed_entries(t, id),
{
    let mut t = t;
    let ghost t0 = t;
    let _ = t.remove(id);
    proof {
        lemma_removed_entries(t0, id);
        if t0.has(id) {
            let k = choose|k: int| 0 <= k < t0.spec_entries().len() && t0.spec_entries()[k] == (id, t0.spec_entries()[k].1) && t.spec_entries() == t0.spec_entries().remove(k);
            let k2 = index_of_id(t0.spec_entries(), id);
            assert(k == k2) by {
                if k != k2 {
                    assert(t0.spec_entries()[k].0 == t0.spec_entries()[k2].0);
                }
            }
        }
    }
    t
}

/// The entries of a table once `id` is taken out.
pub open spec fn removed_entries<T>(t: SubscriptionTable<T>, id: SubscriptionId) -> Seq<(SubscriptionId, T)> {
    if t.has(id) {
        t.spec_entries().remove(index_of_id(t.spec_entries(), id))
    } else {
        t.spec_entries()
    }
}

/// Taking `id` out of a table keeps every other entry and drops `id`.
pub proof fn lemma_removed_entries<T>(t: SubscriptionTable<T>, id: SubscriptionId)
    requires
        t.wf(),
    ensures
        forall|j: int|
            0 <= j < removed_entries(t, id).len() ==> (#[trigger] removed_entries(t, id)[j]).0
                != id,
        forall|e: (SubscriptionId, T)|
            e.0 != id ==> (removed_entries(t, id).contains(e) <==> t.spec_entries().contains(e)),
        ids_distinct_entries(removed_entries(t, id)),
        removed_entries(t, id).len() <= t.spec_entries().len(),
{
    let es = t.spec_entries();
    if t.has(id) {
        let k = index_of_id(es, id);
        let r = es.remove(k);
        assert forall|j: int| 0 <= j < r.len() implies (#[trigger] r[j]).0 != id by {
            let j0 = if j < k { j } else { j + 1 };
            assert(r[j] == es[j0]);
        }
        assert forall|e: (SubscriptionId, T)| e.0 != id implies (r.contains(e) <==> es.contains(e)) by {
            if r.contains(e) {
                let j = choose|j: int| 0 <= j < r.len() && r[j] == e;
                let j0 = if j < k { j } else { j + 1 };
                assert(es[j0] == e);
            }
            if es.contains(e) {
                let j = choose|j: int| 0 <= j < es.len() && es[j] == e;
                assert(j != k);
                let j1 = if j < k { j } else { j - 1 };
                assert(r[j1] == e);
            }
        }
        assert forall|a: int, b: int| 0 <= a < b < r.len() implies (#[trigger] r[a]).0 != (#[trigger] r[b]).0 by {
            let a0 = if a < k { a } else { a + 1 };
            let b0 = if b < k { b } else { b + 1 };
            assert(r[a] == es[a0]);
            assert(r[b] == es[b0]);
        }
    } else {
        assert forall|j: int| 0 <= j < es.len() implies (#[trigger] es[j]).0 != id by {
            if es[j].0 == id {
                assert(t.has(id));
            }
        }
    }
}

/// No identifier occurs twice among the entries.
pub open spec fn ids_distinct_entries<T>(entries: Seq<(SubscriptionId, T)>) -> bool {
    forall|a: int, b: int|
        0 <= a < b < entries.len() ==> (#[trigger] entries[a]).0 != (#[trigger] entries[b]).0
}

impl<T> TopicMatcherNode<T> {
    /// The text of the first level on the way to `key` that the tree lacks
    /// (the segment an update reports as invalid).
    pub closed spec fn missing_segment(&self, key: Seq<ItemView>) -> Seq<char>
        decreases key.len(),
    {
        if key.len() == 0 {
            "no_data_for_empty_path"@
        } else {
            match key[0] {
                ItemView::Str(s) => {
                    let c = label_index(self.exact_children@, s);
                    if c >= 0 {
                        self.exact_children@[c].1.missing_segment(key.drop_first())
                    } else {
                        s
                    }
                },
                ItemView::Plus(_) => match self.plus_wildcard_node {
                    Some(b) => b.missing_segment(key.drop_first()),
                    None => "+"@,
                },
                ItemView::Hash(_) => "#"@,
            }
        }
    }

    /// Applies `f` to the table stored under `topic_path` and stores what it
    /// gives back, dropping the table when it comes back empty and every
    /// node that becomes empty. Returns whether this node is empty
    /// afterwards; fails, changing nothing, when no table is stored under the
    /// pattern. A `#` ends the path: what follows the first `#` is not looked
    /// at.
    pub fn update_node<F: Fn(SubscriptionTable<T>) -> SubscriptionTable<T>>(
        &mut self,
        topic_path: &[TopicPatternItem],
        f: F,
    ) -> (r: Result<bool, TopicMatcherError>)
        requires
            old(self).wf(),
            update_fits(f),
        ensures
            final(self).wf(),
            old(self).lookup(upto_first_hash(items_view(topic_path@))) is None ==> (r matches Err(e) && e@
                == MatcherErrorView::InvalidSegment(old(self).missing_segment(upto_first_hash(items_view(topic_path@))), 0)
                && forall|k: Seq<ItemView>| #[trigger] final(self).lookup(k) == old(self).lookup(k)),
            old(self).lookup(upto_first_hash(items_view(topic_path@))) matches Some(t) ==> {
                &&& (r matches Ok(b) && b == final(self).structurally_empty())
                &&& exists|t2: SubscriptionTable<T>|
                    call_ensures(f, (t,), t2) && final(self).lookup(upto_first_hash(items_view(topic_path@)))
                        == updated_slot(t2)
                &&& forall|k: Seq<ItemView>|
                    erase(k) != erase(upto_first_hash(items_view(topic_path@))) ==> #[trigger] final(self).lookup(k)
                        == old(self).lookup(k)
            },
    {
        let ghost iv = items_view(topic_path@);
        let mut h: usize = 0;
        let mut found = false;
        while !found && h < topic_path.len()
            invariant
                0 <= h <= topic_path@.len(),
                iv == items_view(topic_path@),
                found ==> h < topic_path@.len() && iv[h as int] is Hash,
                forall|k: int| 0 <= k < h ==> !((#[trigger] iv[k]) is Hash),
            decreases topic_path@.len() - h + (if found { 0int } else { 1int }),
        {
            if topic_path[h].is_hash() {
                found = true;
            } else {
                h = h + 1;
            }
        }
        let n = topic_path.len();
        let path: &[TopicPatternItem] = if found {
            assert(h < n);
            topic_path.split_at(h + 1).0
        } else {
            topic_path
        };
        proof {
            lemma_upto_prefix(iv, h as int);
            if found {
                let rest = iv.skip(h as int);
                assert(rest[0] is Hash);
                assert(upto_first_hash(rest) == seq![rest[0]]);
                assert(items_view(path@) =~= iv.take(h as int) + seq![rest[0]]);
            } else {
                assert(iv.skip(h as int) =~= Seq::<ItemView>::empty());
                assert(upto_first_hash(iv.skip(h as int)) =~= Seq::<ItemView>::empty());
                assert(items_view(path@) =~= iv.take(h as int) + Seq::<ItemView>::empty());
            }
            assert(items_view(path@) == upto_first_hash(iv));
            assert(hash_only_last(items_view(path@))) by {
                assert forall|j: int| 0 <= j < items_view(path@).len() - 1 implies !((#[trigger] items_view(path@)[j]) is Hash) by {
                    assert(items_view(path@)[j] == iv[j]);
                }
            }
            assert(items_view(path@).skip(0) =~= items_view(path@));
        }
        self.update_from(path, 0, &f)
    }

    /// Applies `f` to the table under the pattern `items[i..]`.
    fn update_from<F: Fn(SubscriptionTable<T>) -> SubscriptionTable<T>>(&mut self, items: &[TopicPatternItem], i: usize, f: &F) -> (r: Result<bool, TopicMatcherError>)
        requires
            old(self).wf(),
            hash_only_last(items_view(items@)),
            i <= items@.len(),
            update_fits(*f),
        ensures
            final(self).wf(),
            old(self).lookup(items_view(items@).skip(i as int)) is None ==> (r matches Err(e) && e@
                == MatcherErrorView::InvalidSegment(old(self).missing_segment(items_view(items@).skip(i as int)), 0)
                && forall|k: Seq<ItemView>| #[trigger] final(self).lookup(k) == old(self).lookup(k)),
            old(self).lookup(items_view(items@).skip(i as int)) matches Some(t) ==> {
                &&& (r matches Ok(b) && b == final(self).structurally_empty())
                &&& exists|t2: SubscriptionTable<T>|
                    call_ensures(*f, (t,), t2) && final(self).lookup(items_view(items@).skip(i as int))
                        == updated_slot(t2)
                &&& forall|k: Seq<ItemView>|
                    erase(k) != erase(items_view(items@).skip(i as int)) ==> #[trigger] final(self).lookup(k)
                        == old(self).lookup(k)
            },
        decreases items@.len() - i,
    {
        let ghost iv = items_view(items@);
        let ghost key = iv.skip(i as int);
        let ghost old_self = *self;
        if i == items.len() {
            assert(key.len() == 0);
            match self.exact_match_data.take() {
                None => {
                    proof {
                        reveal_strlit("no_data_for_empty_path");
                    }
                    return Err(TopicMatcherError::invalid_segment("no_data_for_empty_path", 0));
                },
                Some(t) => {
                    let t2 = f(t);
                    let ghost g2 = t2;
                    if !t2.has_no_entries() {
                        self.exact_match_data = Some(t2);
                    }
                    proof {
                        assert(self.lookup(key) == updated_slot(g2));
                    }
                    proof {
                        assert forall|k: Seq<ItemView>|
                            erase(k) != erase(key) implies #[trigger] self.lookup(k) == old_self.lookup(k) by {
                            if k.len() == 0 {
                                assert(erase(k) =~= erase(key));
                            }
                        }
                    }
                    return Ok(self.is_empty());
                },
            }
        }
        proof {
            assert(key[0] == iv[i as int]);
            assert(key.drop_first() =~= iv.skip(i + 1));
        }
        match &items[i] {
            TopicPatternItem::Str(s) => {
                let found = self.find_child(s);
                match found {
                    None => {
                        return Err(TopicMatcherError::invalid_segment(s.as_str(), 0));
                    },
                    Some(c) => {
                        let ghost old_children = self.exact_children@;
                        let (label, mut child) = self.exact_children.remove(c);
                        proof {
                            assert(old_children[c as int] == (label, child));
                            assert(label@ == s@);
                        }
                        let ghost child0 = *child;
                        let res = child.update_from(items, i + 1, f);
                        match res {
                            Err(e) => {
                                self.exact_children.insert(c, (label, child));
                                proof {
                                    let new_children = self.exact_children@;
                                    assert(new_children =~= old_children.update(c as int, (label, child)));
                                    lemma_label_index_same(old_children, new_children, s@);
                                    assert(label_index(old_children, s@) == c);
                                    assert forall|j: int| 0 <= j < new_children.len() implies (#[trigger] new_children[j]).1.wf()
                                        && !new_children[j].1.structurally_empty() by {
                                        if j != c {
                                            assert(new_children[j] == old_children[j]);
                                        } else {
                                            child0.lemma_empty_iff_no_key();
                                            child.lemma_empty_iff_no_key();
                                            let k1 = choose|k: Seq<ItemView>| #[trigger] child0.lookup(k) is Some;
                                            assert(child.lookup(k1) == child0.lookup(k1));
                                        }
                                    }
                                    assert forall|k: Seq<ItemView>| #[trigger] self.lookup(k) == old_self.lookup(k) by {
                                        if k.len() > 0 {
                                            match k[0] {
                                                ItemView::Str(s2) => {
                                                    lemma_label_index_same(old_children, new_children, s2);
                                                    let ci = label_index(old_children, s2);
                                                    if ci == c {
                                                        assert(new_children[c as int].1 == child);
                                                        assert(child.lookup(k.drop_first()) == child0.lookup(k.drop_first()));
                                                    } else if ci >= 0 {
                                                        assert(new_children[ci] == old_children[ci]);
                                                    }
                                                },
                                                _ => {},
                                            }
                                        }
                                    }
                                }
                                return Err(e);
                            },
                            Ok(child_empty) => {
                                let ghost new_children;
                                if child_empty {
                                    proof {
                                        assert(self.exact_children@ =~= old_children.remove(c as int));
                                        new_children = self.exact_children@;
                                    }
                                } else {
                                    self.exact_children.insert(c, (label, child));
                                    proof {
                                        assert(self.exact_children@ =~= old_children.update(c as int, (label, child)));
                                        new_children = self.exact_children@;
                                    }
                                }
                                proof {
                                    let t0 = child0.lookup(iv.skip(i + 1))->Some_0;
                                    let t2 = choose|t2: SubscriptionTable<T>|
                                        call_ensures(*f, (t0,), t2) && child.lookup(iv.skip(i + 1)) == updated_slot(t2);
                                    self.lemma_update_child_effect(old_self, old_children, c as int, child0, *child, child_empty, key, iv, i as int, updated_slot(t2));
                                    assert(call_ensures(*f, (t0,), t2) && self.lookup(key) == updated_slot(t2));
                                }
                                if child_empty {
                                    return Ok(self.is_empty());
                                }
                                return Ok(false);
                            },
                        }
                    },
                }
            },
            TopicPatternItem::Plus(_) => {
                match self.plus_wildcard_node.take() {
                    None => {
                        proof {
                            reveal_strlit("+");
                        }
                        return Err(TopicMatcherError::invalid_segment("+", 0));
                    },
                    Some(mut node) => {
                        let ghost before = *node;
                        let res = node.update_from(items, i + 1, f);
                        match res {
                            Err(e) => {
                                self.plus_wildcard_node = Some(node);
                                proof {
                                    before.lemma_empty_iff_no_key();
                                    node.lemma_empty_iff_no_key();
                                    let k1 = choose|k: Seq<ItemView>| #[trigger] before.lookup(k) is Some;
                                    assert(node.lookup(k1) == before.lookup(k1));
                                    assert forall|k: Seq<ItemView>| #[trigger] self.lookup(k) == old_self.lookup(k) by {
                                        if k.len() > 0 {
                                            match k[0] {
                                                ItemView::Plus(_) => {
                                                    assert(node.lookup(k.drop_first()) == before.lookup(k.drop_first()));
                                                },
                                                _ => {},
                                            }
                                        }
                                    }
                                }
                                return Err(e);
                            },
                            Ok(child_empty) => {
                                if !child_empty {
                                    self.plus_wildcard_node = Some(node);
                                }
                                proof {
                                    before.lemma_empty_iff_no_key();
                                    node.lemma_empty_iff_no_key();
                                    assert forall|k: Seq<ItemView>|
                                        erase(k) != erase(key) implies #[trigger] self.lookup(k) == old_self.lookup(k) by {
                                        if k.len() > 0 {
                                            match k[0] {
                                                ItemView::Plus(_) => {
                                                    lemma_erase_cons(k, key);
                                                    assert(erase(k.drop_first()) != erase(iv.skip(i + 1)));
                                                    assert(node.lookup(k.drop_first()) == before.lookup(k.drop_first()));
                                                },
                                                _ => {},
                                            }
                                        }
                                    }
                                    if child_empty {
                                        assert(node.lookup(key.drop_first()) is None);
                                    }
                                }
                                if child_empty {
                                    return Ok(self.is_empty());
                                }
                                return Ok(false);
                            },
                        }
                    },
                }
            },
            TopicPatternItem::Hash(_) => {
                proof {
                    assert(i == items@.len() - 1) by {
                        if i < items@.len() - 1 {
                            assert(iv[i as int] is Hash);
                        }
                    }
                    assert(key.len() == 1);
                }
                match self.hash_wildcard_data.take() {
                    None => {
                        proof {
                            reveal_strlit("#");
                        }
                        return Err(TopicMatcherError::invalid_segment("#", 0));
                    },
                    Some(t) => {
                        let t2 = f(t);
                        let ghost g2 = t2;
                        let now_empty = t2.has_no_entries();
                        if !now_empty {
                            self.hash_wildcard_data = Some(t2);
                        }
                        proof {
                            assert(self.lookup(key) == updated_slot(g2));
                        }
                        proof {
                            assert forall|k: Seq<ItemView>|
                                erase(k) != erase(key) implies #[trigger] self.lookup(k) == old_self.lookup(k) by {
                                if k.len() == 1 && k[0] is Hash {
                                    assert(erase(k) =~= erase(key));
                                }
                            }
                        }
                        if now_empty {
                            return Ok(self.is_empty());
                        }
                        return Ok(false);
                    },
                }
            },
        }
    }

    /// The effect on lookups of updating the child at index `c`.
    proof fn lemma_update_child_effect(
        &self,
        old_self: Self,
        old_children: Seq<(String, Box<TopicMatcherNode<T>>)>,
        c: int,
        child0: Self,
        child1: Self,
        child_empty: bool,
        key: Seq<ItemView>,
        iv: Seq<ItemView>,
        i: int,
        slot: Option<SubscriptionTable<T>>,
    )
        requires
            old_self.wf(),
            old_children == old_self.exact_children@,
            0 <= c < old_children.len(),
            old_children[c].1 == child0,
            key.len() > 0,
            key[0] is Str,
            old_children[c].0@ == key[0]->Str_0,
            key.drop_first() == iv.skip(i + 1),
            child1.wf(),
            child_empty == child1.structurally_empty(),
            child0.lookup(key.drop_first()) is Some,
            child_empty ==> self.exact_children@ == old_children.remove(c),
            !child_empty ==> self.exact_children@ == old_children.update(c, (old_children[c].0, Box::new(child1))),
            self.exact_match_data == old_self.exact_match_data,
            self.plus_wildcard_node == old_self.plus_wildcard_node,
            self.hash_wildcard_data == old_self.hash_wildcard_data,
            forall|k: Seq<ItemView>|
                erase(k) != erase(iv.skip(i + 1)) ==> #[trigger] child1.lookup(k) == child0.lookup(k),
            child1.lookup(iv.skip(i + 1)) == slot,
        ensures
            self.wf(),
            old_self.lookup(key) == child0.lookup(key.drop_first()),
            self.lookup(key) == slot,
            forall|k: Seq<ItemView>|
                erase(k) != erase(key) ==> #[trigger] self.lookup(k) == old_self.lookup(k),
            !child_empty ==> !self.structurally_empty(),
    {
        let s = key[0]->Str_0;
        let new_children = self.exact_children@;
        assert(label_index(old_children, s) == c) by {
            let li = label_index(old_children, s);
            if li != c {
                assert(old_children[li].0@ == old_children[c].0@);
            }
        }
        child1.lemma_empty_iff_no_key();
        if child_empty {
            // Removing a child keeps the other labels distinct and findable.
            assert forall|x: int, y: int| 0 <= x < y < new_children.len() implies (#[trigger] new_children[x]).0@ != (#[trigger] new_children[y]).0@ by {
                let x0 = if x < c { x } else { x + 1 };
                let y0 = if y < c { y } else { y + 1 };
                assert(new_children[x] == old_children[x0]);
                assert(new_children[y] == old_children[y0]);
            }
            assert forall|j: int| 0 <= j < new_children.len() implies (#[trigger] new_children[j]).1.wf()
                && !new_children[j].1.structurally_empty() by {
                let j0 = if j < c { j } else { j + 1 };
                assert(new_children[j] == old_children[j0]);
            }
            assert(label_index(new_children, s) == -1) by {
                if exists|j: int| 0 <= j < new_children.len() && (#[trigger] new_children[j]).0@ == s {
                    let j = choose|j: int| 0 <= j < new_children.len() && (#[trigger] new_children[j]).0@ == s;
                    let j0 = if j < c { j } else { j + 1 };
                    assert(new_children[j] == old_children[j0]);
                    assert(old_children[j0].0@ == old_children[c].0@);
                }
            }
            assert(self.lookup(key) is None);
            assert(child1.lookup(iv.skip(i + 1)) is None);
            assert forall|k: Seq<ItemView>|
                erase(k) != erase(key) implies #[trigger] self.lookup(k) == old_self.lookup(k) by {
                if k.len() > 0 {
                    match k[0] {
                        ItemView::Str(s2) => {
                            if s2 == s {
                                lemma_erase_cons(k, key);
                                assert(child1.lookup(k.drop_first()) is None);
                                assert(old_self.lookup(k) == child0.lookup(k.drop_first()));
                            } else {
                                let ci = label_index(old_children, s2);
                                if ci >= 0 {
                                    assert(ci != c);
                                    let cn = if ci < c { ci } else { ci - 1 };
                                    assert(new_children[cn] == old_children[ci]);
                                    assert(label_index(new_children, s2) == cn) by {
                                        let l2 = label_index(new_children, s2);
                                        if l2 != cn {
                                            let l0 = if l2 < c { l2 } else { l2 + 1 };
                                            assert(new_children[l2] == old_children[l0]);
                                        }
                                    }
                                } else {
                                    assert(label_index(new_children, s2) == -1) by {
                                        if exists|j: int| 0 <= j < new_children.len() && (#[trigger] new_children[j]).0@ == s2 {
                                            let j = choose|j: int| 0 <= j < new_children.len() && (#[trigger] new_children[j]).0@ == s2;
                                            let j0 = if j < c { j } else { j + 1 };
                                            assert(new_children[j] == old_children[j0]);
                                        }
                                    }
                                }
                            }
                        },
                        _ => {},
                    }
                }
            }
        } else {
            lemma_label_index_same(old_children, new_children, s);
            assert forall|j: int| 0 <= j < new_children.len() implies (#[trigger] new_children[j]).1.wf()
                && !new_children[j].1.structurally_empty() by {
                if j != c {
                    assert(new_children[j] == old_children[j]);
                }
            }
            assert(self.lookup(key) == child1.lookup(key.drop_first()));
            assert forall|k: Seq<ItemView>|
                erase(k) != erase(key) implies #[trigger] self.lookup(k) == old_self.lookup(k) by {
                if k.len() > 0 {
                    match k[0] {
                        ItemView::Str(s2) => {
                            lemma_label_index_same(old_children, new_children, s2);
                            let ci = label_index(old_children, s2);
                            if ci == c {
                                assert(s2 == s);
                                lemma_erase_cons(k, key);
                                assert(erase(k.drop_first()) != erase(iv.skip(i + 1)));
                                assert(new_children[c].1 == Box::new(child1));
                                assert(self.lookup(k) == child1.lookup(k.drop_first()));
                                assert(old_self.lookup(k) == child0.lookup(k.drop_first()));
                            } else if ci >= 0 {
                                assert(new_children[ci] == old_children[ci]);
                            }
                        },
                        _ => {},
                    }
                }
            }
        }
    }
}


/// A pattern in the shape the tree stores: wildcards carry no name.
pub open spec fn is_erased(k: Seq<ItemView>) -> bool {
    erase(k) == k
}

/// No key occurs twice.
pub open spec fn keys_distinct(ks: Seq<Seq<ItemView>>) -> bool {
    forall|a: int, b: int| 0 <= a < b < ks.len() ==> #[trigger] ks[a] != #[trigger] ks[b]
}

/// The keys with one item put in front.
pub open spec fn prefix_keys(it: ItemView, ks: Seq<Seq<ItemView>>) -> Seq<Seq<ItemView>> {
    ks.map_values(|k: Seq<ItemView>| seq![it] + k)
}

/// Erasing twice is erasing once, and the rest of an erased key is erased.
pub proof fn lemma_erase_facts(k: Seq<ItemView>)
    ensures
        is_erased(erase(k)),
        is_erased(k) && k.len() > 0 ==> is_erased(k.drop_first()),
        is_erased(k) && k.len() > 0 ==> k =~= seq![k[0]] + k.drop_first(),
{
    assert(erase(erase(k)) =~= erase(k));
    if is_erased(k) && k.len() > 0 {
        assert(erase(k.drop_first()) =~= k.drop_first()) by {
            assert forall|j: int| 0 <= j < k.len() - 1 implies erase(k.drop_first())[j] == k.drop_first()[j] by {
                assert(erase(k)[j + 1] == k[j + 1]);
            }
        }
    }
}

/// Prefixing keys with the same item keeps them distinct, and the prefixed
/// keys are exactly the prefixed members.
proof fn lemma_prefix_keys(it: ItemView, ks: Seq<Seq<ItemView>>)
    requires
        keys_distinct(ks),
    ensures
        keys_distinct(prefix_keys(it, ks)),
        prefix_keys(it, ks).len() == ks.len(),
        forall|j: int| 0 <= j < ks.len() ==> #[trigger] prefix_keys(it, ks)[j] == seq![it] + ks[j],
        forall|j: int| 0 <= j < ks.len() ==> (#[trigger] prefix_keys(it, ks)[j])[0] == it,
        forall|k: Seq<ItemView>| ks.contains(k) ==> #[trigger] prefix_keys(it, ks).contains(seq![it] + k),
{
    let ps = prefix_keys(it, ks);
    assert forall|a: int, b: int| 0 <= a < b < ps.len() implies #[trigger] ps[a] != #[trigger] ps[b] by {
        assert(ps[a].drop_first() =~= ks[a]);
        assert(ps[b].drop_first() =~= ks[b]);
    }
    assert forall|k: Seq<ItemView>| ks.contains(k) implies #[trigger] ps.contains(seq![it] + k) by {
        let j = choose|j: int| 0 <= j < ks.len() && ks[j] == k;
        assert(ps[j] == seq![it] + k);
    }
}

impl<T> TopicMatcherNode<T> {
    /// `found[j]` is the table stored under `keys[j]`; the keys are distinct,
    /// erased and match the levels, and every stored erased key that matches
    /// the levels is among them.
    pub open spec fn found_with_keys(
        &self,
        levels: Seq<Seq<char>>,
        found: Seq<&SubscriptionTable<T>>,
        keys: Seq<Seq<ItemView>>,
    ) -> bool {
        &&& found.len() == keys.len()
        &&& keys_distinct(keys)
        &&& forall|j: int|
            0 <= j < keys.len() ==> #[trigger] self.lookup(keys[j]) == Some(*found[j]) && is_erased(
                keys[j],
            ) && topic_matches(keys[j], levels)
        &&& forall|k: Seq<ItemView>|
            is_erased(k) && topic_matches(k, levels) && (#[trigger] self.lookup(k)) is Some
                ==> keys.contains(k)
    }

    /// The tables found for `levels` are exactly those stored under the
    /// patterns that match them, each once.
    pub open spec fn found_for(&self, levels: Seq<Seq<char>>, found: Seq<&SubscriptionTable<T>>) -> bool {
        exists|keys: Seq<Seq<ItemView>>| self.found_with_keys(levels, found, keys)
    }

    /// Finds all subscription tables whose pattern matches the topic.
    pub fn find_by_path<'a>(&'a self, topic: &TopicPath) -> (r: Vec<&'a SubscriptionTable<T>>)
        requires
            self.wf(),
        ensures
            self.found_for(topic.levels(), r@),
    {
        let mut out: Vec<&'a SubscriptionTable<T>> = Vec::new();
        let keys = self.collect_matching_subscriptions(topic.segments(), 0, &mut out);
        proof {
            assert(topic.levels().skip(0) =~= topic.levels());
            assert(out@.skip(0) =~= out@);
            assert(self.found_with_keys(topic.levels(), out@, keys@));
        }
        out
    }

    /// Appends to `out` the tables whose pattern matches `levels[i..]`;
    /// gives back the keys they are stored under.
    fn collect_matching_subscriptions<'a>(
        &'a self,
        levels: &Vec<String>,
        i: usize,
        out: &mut Vec<&'a SubscriptionTable<T>>,
    ) -> (keys: Ghost<Seq<Seq<ItemView>>>)
        requires
            self.wf(),
            i <= levels@.len(),
        ensures
            final(out)@.len() == old(out)@.len() + keys@.len(),
            final(out)@.take(old(out)@.len() as int) == old(out)@,
            self.found_with_keys(
                strings_view(levels@).skip(i as int),
                final(out)@.skip(old(out)@.len() as int),
                keys@,
            ),
        decreases levels@.len() - i,
    {
        let ghost lv = strings_view(levels@).skip(i as int);
        let ghost start = out@;
        let ghost mut keys: Seq<Seq<ItemView>> = Seq::empty();
        if i == levels.len() {
            assert(lv.len() == 0);
            if let Some(t) = &self.exact_match_data {
                out.push(t);
                proof {
                    keys = keys.push(Seq::<ItemView>::empty());
                    assert(erase(Seq::<ItemView>::empty()) =~= Seq::<ItemView>::empty());
                }
            }
            if let Some(t) = &self.hash_wildcard_data {
                out.push(t);
                proof {
                    let hk = seq![ItemView::Hash(None)];
                    assert(erase(hk) =~= hk);
                    keys = keys.push(hk);
                }
            }
            proof {
                assert(out@.take(start.len() as int) =~= start);
                let found = out@.skip(start.len() as int);
                assert forall|j: int| 0 <= j < keys.len() implies #[trigger] self.lookup(keys[j]) == Some(*found[j])
                    && is_erased(keys[j]) && topic_matches(keys[j], lv) by {
                    let hk = seq![ItemView::Hash(None)];
                    assert(erase(hk) =~= hk);
                    assert(erase(Seq::<ItemView>::empty()) =~= Seq::<ItemView>::empty());
                }
                assert forall|k: Seq<ItemView>|
                    is_erased(k) && topic_matches(k, lv) && (#[trigger] self.lookup(k)) is Some implies keys.contains(k) by {
                    if k.len() == 0 {
                        assert(keys[0] == k);
                    } else {
                        assert(k[0] is Hash);
                        assert(k.len() == 1);
                        assert(erase(k)[0] == ItemView::Hash(None));
                        assert(k =~= seq![ItemView::Hash(None)]);
                        assert(keys[keys.len() - 1] == k);
                    }
                }
            }
            return Ghost(keys);
        }
        let seg = &levels[i];
        proof {
            assert(lv[0] == seg@);
            assert(lv.drop_first() =~= strings_view(levels@).skip(i + 1));
        }
        let found = self.find_child(seg);
        let ghost lvr = strings_view(levels@).skip(i + 1);
        let ghost mut child_keys: Seq<Seq<ItemView>> = Seq::empty();
        if let Some(c) = found {
            let child = &self.exact_children[c].1;
            proof {
                assert(self.exact_children@[c as int].1.wf());
            }
            let ks = child.collect_matching_subscriptions(levels, i + 1, out);
            proof {
                child_keys = ks@;
            }
        }
        let ghost mid = out@;
        assert(mid.len() == start.len() + child_keys.len());
        assert(mid.take(start.len() as int) == start);
        assert(found matches Some(c) ==> self.exact_children@[c as int].1.found_with_keys(
            lvr,
            mid.skip(start.len() as int),
            child_keys,
        ));
        let ghost mut plus_keys: Seq<Seq<ItemView>> = Seq::empty();
        if let Some(p) = &self.plus_wildcard_node {
            let ks = p.collect_matching_subscriptions(levels, i + 1, out);
            proof {
                plus_keys = ks@;
            }
        }
        let ghost mid2 = out@;
        assert(mid2.len() == mid.len() + plus_keys.len());
        assert(mid2.take(mid.len() as int) == mid);
        assert(self.plus_wildcard_node matches Some(p) ==> p.found_with_keys(
            lvr,
            mid2.skip(mid.len() as int),
            plus_keys,
        ));
        assert(self.plus_wildcard_node is None ==> plus_keys.len() == 0);
        let ghost mut hash_keys: Seq<Seq<ItemView>> = Seq::empty();
        if let Some(t) = &self.hash_wildcard_data {
            out.push(t);
            proof {
                hash_keys = seq![seq![ItemView::Hash(None)]];
            }
        }
        proof {
            let sv = ItemView::Str(seg@);
            let pv = ItemView::Plus(None);
            let hk = seq![ItemView::Hash(None)];
            assert(erase(hk) =~= hk);
            lemma_prefix_keys(sv, child_keys);
            lemma_prefix_keys(pv, plus_keys);
            let ck = prefix_keys(sv, child_keys);
            let pk = prefix_keys(pv, plus_keys);
            keys = ck + pk + hash_keys;
            let fa = out@.skip(start.len() as int);
            assert(out@.take(start.len() as int) =~= start);
            // The pieces of `out` that each part appended.
            assert(mid.len() == start.len() + ck.len());
            assert(mid2.len() == mid.len() + pk.len());
            assert forall|j: int| 0 <= j < ck.len() implies #[trigger] fa[j] == mid.skip(start.len() as int)[j] by {
                assert(mid2.take(mid.len() as int) == mid);
                assert(out@.take(mid2.len() as int) == mid2);
            }
            assert forall|j: int| 0 <= j < pk.len() implies #[trigger] fa[ck.len() + j] == mid2.skip(mid.len() as int)[j] by {
                assert(out@.take(mid2.len() as int) == mid2);
            }
            assert forall|j: int| 0 <= j < keys.len() implies #[trigger] self.lookup(keys[j]) == Some(*fa[j])
                && is_erased(keys[j]) && topic_matches(keys[j], lv) by {
                if j < ck.len() {
                    let c = found.unwrap();
                    let child = self.exact_children@[c as int].1;
                    let kc = child_keys[j];
                    assert(keys[j] == seq![sv] + kc);
                    assert(child.lookup(kc) == Some(*mid.skip(start.len() as int)[j]));
                    assert((seq![sv] + kc)[0] == sv);
                    assert((seq![sv] + kc).drop_first() =~= kc);
                    assert(label_index(self.exact_children@, seg@) == c);
                    assert(erase(seq![sv] + kc) =~= seq![sv] + erase(kc)) by {
                        assert(erase(seq![sv] + kc).drop_first() =~= erase(kc));
                    }
                } else if j < ck.len() + pk.len() {
                    let j2 = j - ck.len();
                    let kp = plus_keys[j2];
                    assert(keys[j] == seq![pv] + kp);
                    let pn = self.plus_wildcard_node->Some_0;
                    assert(pn.lookup(kp) == Some(*mid2.skip(mid.len() as int)[j2]));
                    assert((seq![pv] + kp)[0] == pv);
                    assert((seq![pv] + kp).drop_first() =~= kp);
                    assert(erase(seq![pv] + kp) =~= seq![pv] + erase(kp)) by {
                        assert(erase(seq![pv] + kp).drop_first() =~= erase(kp));
                    }
                } else {
                    assert(keys[j] == hk);
                    assert(fa[j] == out@.last());
                }
            }
            assert forall|a: int, b: int| 0 <= a < b < keys.len() implies #[trigger] keys[a] != #[trigger] keys[b] by {
                if a < ck.len() && b < ck.len() {
                } else if a >= ck.len() && b >= ck.len() && a < ck.len() + pk.len() && b < ck.len() + pk.len() {
                    assert(keys[a] == pk[a - ck.len()]);
                    assert(keys[b] == pk[b - ck.len()]);
                } else {
                    assert(keys[a][0] != keys[b][0]);
                }
            }
            assert forall|k: Seq<ItemView>|
                is_erased(k) && topic_matches(k, lv) && (#[trigger] self.lookup(k)) is Some implies keys.contains(k) by {
                lemma_erase_facts(k);
                assert(k.len() > 0);
                let rest = k.drop_first();
                assert(lv.drop_first() =~= strings_view(levels@).skip(i + 1));
                match k[0] {
                    ItemView::Str(s2) => {
                        assert(s2 == seg@);
                        let c = found.unwrap();
                        assert(self.lookup(k) == self.exact_children@[c as int].1.lookup(rest));
                        assert(child_keys.contains(rest));
                        assert(ck.contains(seq![sv] + rest));
                        assert(seq![sv] + rest =~= k);
                        let jj = choose|jj: int| 0 <= jj < ck.len() && ck[jj] == k;
                        assert((ck + pk)[jj] == ck[jj]);
                        assert(keys[jj] == (ck + pk)[jj]);
                        assert(keys[jj] == k);
                    },
                    ItemView::Plus(n) => {
                        assert(erase(k)[0] == pv);
                        let pn = self.plus_wildcard_node->Some_0;
                        assert(self.lookup(k) == pn.lookup(rest));
                        assert(plus_keys.contains(rest));
                        assert(pk.contains(seq![pv] + rest));
                        assert(seq![pv] + rest =~= k);
                        let jj = choose|jj: int| 0 <= jj < pk.len() && pk[jj] == k;
                        assert((ck + pk)[ck.len() + jj] == pk[jj]);
                        assert(keys[ck.len() + jj] == (ck + pk)[ck.len() + jj]);
                        assert(keys[ck.len() + jj] == k);
                    },
                    ItemView::Hash(n) => {
                        assert(k.len() == 1);
                        assert(erase(k)[0] == ItemView::Hash(None));
                        assert(k =~= hk);
                        assert(keys[keys.len() - 1] == k);
                    },
                }
            }
        }
        Ghost(keys)
    }
}


impl<T> TopicMatcherNode<T> {
    /// The table stored under the pattern `items`, if any.
    pub fn find_table(&self, items: &[TopicPatternItem]) -> (r: Option<&SubscriptionTable<T>>)
        requires
            self.wf(),
        ensures
            match r {
                Some(t) => self.lookup(items_view(items@)) == Some(*t),
                None => self.lookup(items_view(items@)) is None,
            },
    {
        proof {
            assert(items_view(items@).skip(0) =~= items_view(items@));
        }
        self.find_table_from(items, 0)
    }

    /// The table stored under `items[i..]`.
    fn find_table_from(&self, items: &[TopicPatternItem], i: usize) -> (r: Option<&SubscriptionTable<T>>)
        requires
            self.wf(),
            i <= items@.len(),
        ensures
            match r {
                Some(t) => self.lookup(items_view(items@).skip(i as int)) == Some(*t),
                None => self.lookup(items_view(items@).skip(i as int)) is None,
            },
        decreases items@.len() - i,
    {
        let ghost key = items_view(items@).skip(i as int);
        if i == items.len() {
            assert(key.len() == 0);
            return match &self.exact_match_data {
                Some(t) => Some(t),
                None => None,
            };
        }
        proof {
            assert(key[0] == items_view(items@)[i as int]);
            assert(key.drop_first() =~= items_view(items@).skip(i + 1));
        }
        match &items[i] {
            TopicPatternItem::Str(s) => match self.find_child(s) {
                Some(c) => {
                    proof {
                        assert(self.exact_children@[c as int].1.wf());
                    }
                    self.exact_children[c].1.find_table_from(items, i + 1)
                },
                None => None,
            },
            TopicPatternItem::Plus(_) => match &self.plus_wildcard_node {
                Some(p) => p.find_table_from(items, i + 1),
                None => None,
            },
            TopicPatternItem::Hash(_) => {
                if i + 1 == items.len() {
                    match &self.hash_wildcard_data {
                        Some(t) => Some(t),
                        None => None,
                    }
                } else {
                    None
                }
            },
        }
    }
}


impl<T> TopicMatcherNode<T> {
    /// A table stored in a well-formed tree is well formed and not empty.
    pub proof fn lemma_lookup_wf(&self, k: Seq<ItemView>)
        requires
            self.wf(),
        ensures
            self.lookup(k) matches Some(t) ==> t.wf() && t.spec_entries().len() > 0,
        decreases k.len(),
    {
        if k.len() > 0 {
            match k[0] {
                ItemView::Str(s) => {
                    let c = label_index(self.exact_children@, s);
                    if c >= 0 {
                        self.exact_children@[c].1.lemma_lookup_wf(k.drop_first());
                    }
                },
                ItemView::Plus(_) => {
                    match self.plus_wildcard_node {
                        Some(b) => b.lemma_lookup_wf(k.drop_first()),
                        None => {},
                    }
                },
                ItemView::Hash(_) => {},
            }
        }
    }
}


/// The pattern holds neither `#` nor a named wildcard: the shape of a path
/// on the way down the tree.
pub open spec fn is_tree_path(k: Seq<ItemView>) -> bool {
    forall|i: int| 0 <= i < k.len() ==> (#[trigger] k[i] is Str || k[i] == ItemView::Plus(None))
}

impl<T> TopicMatcherNode<T> {
    /// `found[j]` is the table stored under `prefix + keys[j]` together with
    /// that pattern; the keys are distinct and erased, and every erased key
    /// with a stored table is among them.
    pub open spec fn lists_stored(
        &self,
        prefix: Seq<ItemView>,
        found: Seq<(TopicPatternPath, &SubscriptionTable<T>)>,
        keys: Seq<Seq<ItemView>>,
    ) -> bool {
        &&& found.len() == keys.len()
        &&& keys_distinct(keys)
        &&& forall|j: int|
            0 <= j < keys.len() ==> #[trigger] self.lookup(keys[j]) == Some(*found[j].1) && is_erased(
                keys[j],
            ) && found[j].0.spec_items() == prefix + keys[j]
        &&& forall|k: Seq<ItemView>|
            is_erased(k) && (#[trigger] self.lookup(k)) is Some ==> keys.contains(k)
    }

    /// Every table stored in the tree, with the pattern it is stored under
    /// (its wildcards without names).
    pub fn active_subscriptions(&self) -> (r: Vec<(TopicPatternPath, &SubscriptionTable<T>)>)
        requires
            self.wf(),
        ensures
            exists|keys: Seq<Seq<ItemView>>| self.lists_stored(Seq::empty(), r@, keys),
    {
        let mut path: Vec<TopicPatternItem> = Vec::new();
        let mut out: Vec<(TopicPatternPath, &SubscriptionTable<T>)> = Vec::new();
        let keys = self.collect_active_subscriptions(&mut path, &mut out);
        proof {
            assert(out@.skip(0) =~= out@);
            assert(items_view(Seq::<TopicPatternItem>::empty()) =~= Seq::<ItemView>::empty());
            assert(self.lists_stored(Seq::empty(), out@, keys@));
        }
        out
    }

    /// Appends to `result` every table of this subtree with its pattern,
    /// `current_path` being the pattern of this node; gives back the keys
    /// relative to this node.
    fn collect_active_subscriptions<'a>(
        &'a self,
        current_path: &mut Vec<TopicPatternItem>,
        result: &mut Vec<(TopicPatternPath, &'a SubscriptionTable<T>)>,
    ) -> (keys: Ghost<Seq<Seq<ItemView>>>)
        requires
            self.wf(),
            is_tree_path(items_view(old(current_path)@)),
        ensures
            items_view(final(current_path)@) == items_view(old(current_path)@),
            final(result)@.len() == old(result)@.len() + keys@.len(),
            final(result)@.take(old(result)@.len() as int) == old(result)@,
            self.lists_stored(
                items_view(old(current_path)@),
                final(result)@.skip(old(result)@.len() as int),
                keys@,
            ),
        decreases self,
    {
        let ghost prefix = items_view(current_path@);
        let ghost start = result@;
        let ghost mut keys: Seq<Seq<ItemView>> = Seq::empty();
        proof {
            assert forall|i: int| 0 <= i < prefix.len() implies !(#[trigger] prefix[i] is Hash) by {
                assert(prefix[i] is Str || prefix[i] == ItemView::Plus(None));
            }
        }
        if let Some(t) = &self.exact_match_data {
            match TopicPatternPath::new_from_segments(current_path) {
                Ok(p) => {
                    result.push((p, t));
                    proof {
                        keys = keys.push(Seq::<ItemView>::empty());
                        assert(prefix + Seq::<ItemView>::empty() =~= prefix);
                    }
                },
                Err(_) => {
                    proof {
                        assert(false);
                    }
                },
            }
        }
        let ghost after_exact = result@;
        if let Some(t) = &self.hash_wildcard_data {
            let ghost before_push = current_path@;
            current_path.push(TopicPatternItem::Hash(None));
            proof {
                assert(items_view(current_path@) =~= prefix.push(ItemView::Hash(None)));
            }
            match TopicPatternPath::new_from_segments(current_path) {
                Ok(p) => {
                    result.push((p, t));
                    proof {
                        keys = keys.push(seq![ItemView::Hash(None)]);
                        assert(prefix + seq![ItemView::Hash(None)] =~= prefix.push(ItemView::Hash(None)));
                    }
                },
                Err(_) => {
                    proof {
                        assert(false);
                    }
                },
            }
            current_path.pop();
            proof {
                assert(current_path@ =~= before_push);
            }
        }
        assert(result@.take(start.len() as int) =~= start);
        assert(result@.len() == start.len() + keys.len());
        proof {
            let found = result@.skip(start.len() as int);
            assert forall|j: int| 0 <= j < keys.len() implies #[trigger] self.lookup(keys[j]) == Some(*found[j].1)
                && is_erased(keys[j]) && found[j].0.spec_items() == prefix + keys[j] && key_before(self.exact_children@, keys[j], 0) by {
                let hk = seq![ItemView::Hash(None)];
                assert(erase(hk) =~= hk);
                assert(erase(Seq::<ItemView>::empty()) =~= Seq::<ItemView>::empty());
            }
        }
        proof {
            if self.exact_match_data is Some {
                assert(keys[0] == Seq::<ItemView>::empty());
            }
            if self.hash_wildcard_data is Some {
                assert(keys[keys.len() - 1] == seq![ItemView::Hash(None)]);
            }
        }
        // The `+` child.
        if let Some(node) = &self.plus_wildcard_node {
            let ghost before = result@;
            let ghost keys0 = keys;
            current_path.push(TopicPatternItem::Plus(None));
            proof {
                assert(items_view(current_path@) =~= prefix.push(ItemView::Plus(None)));
                assert(is_tree_path(prefix.push(ItemView::Plus(None))));
            }
            let ks = node.collect_active_subscriptions(current_path, result);
            let ghost v1 = current_path@;
            current_path.pop();
            proof {
                assert(items_view(v1) == prefix.push(ItemView::Plus(None)));
                assert forall|m: int| 0 <= m < prefix.len() implies items_view(current_path@)[m] == prefix[m] by {
                    assert(current_path@[m] == v1[m]);
                    assert(items_view(v1)[m] == prefix.push(ItemView::Plus(None))[m]);
                }
                assert(items_view(current_path@) =~= prefix);
                let pv = ItemView::Plus(None);
                lemma_prefix_keys(pv, ks@);
                let pk = prefix_keys(pv, ks@);
                keys = keys0 + pk;
                assert forall|j: int| 0 <= j < keys0.len() implies !(keys0[j].len() > 0 && #[trigger] keys0[j][0] is Plus) by {
                    let hk = seq![ItemView::Hash(None)];
                    if keys0[j].len() > 0 {
                        assert(keys0[j] == hk);
                    }
                }
                self.lemma_append_child_keys(prefix, start, before, result@, keys0, pv, ks@, **node, 0);
                assert forall|x: Seq<ItemView>| keys0.contains(x) implies keys.contains(x) by {
                    let j = choose|j: int| 0 <= j < keys0.len() && keys0[j] == x;
                    assert(keys[j] == x);
                }
            }
        }
        proof {
            assert forall|k: Seq<ItemView>|
                is_erased(k) && (#[trigger] self.lookup(k)) is Some && !key_at_or_after(self.exact_children@, k, 0)
                    implies keys.contains(k) by {
                if k.len() == 0 {
                    assert(keys.contains(Seq::<ItemView>::empty()));
                    assert(k =~= Seq::<ItemView>::empty());
                } else {
                    match k[0] {
                        ItemView::Hash(_) => {
                            assert(k.len() == 1);
                            assert(erase(k)[0] == ItemView::Hash(None));
                            assert(k =~= seq![ItemView::Hash(None)]);
                            assert(keys.contains(seq![ItemView::Hash(None)]));
                        },
                        ItemView::Plus(_) => {
                            assert(erase(k)[0] == ItemView::Plus(None));
                        },
                        ItemView::Str(s) => {},
                    }
                }
            }
        }
        let mut i: usize = 0;
        while i < self.exact_children.len()
            invariant
                self.wf(),
                prefix == items_view(current_path@),
                is_tree_path(prefix),
                0 <= i <= self.exact_children@.len(),
                result@.len() == start.len() + keys.len(),
                result@.take(start.len() as int) == start,
                keys_distinct(keys),
                forall|j: int|
                    0 <= j < keys.len() ==> #[trigger] self.lookup(keys[j]) == Some(
                        *result@.skip(start.len() as int)[j].1,
                    ) && is_erased(keys[j]) && result@.skip(start.len() as int)[j].0.spec_items() == prefix
                        + keys[j] && key_before(self.exact_children@, keys[j], i as int),
                forall|k: Seq<ItemView>|
                    is_erased(k) && (#[trigger] self.lookup(k)) is Some && !key_at_or_after(self.exact_children@, k, i as int)
                        ==> keys.contains(k),
            decreases self.exact_children@.len() - i,
        {
            let child: &TopicMatcherNode<T> = &self.exact_children[i].1;
            let label = self.exact_children[i].0.clone();
            proof {
                assert(self.exact_children@[i as int].1.wf());
            }
            let ghost before = result@;
            let ghost keys0 = keys;
            let sv = TopicPatternItem::Str(label);
            current_path.push(sv);
            proof {
                assert(items_view(current_path@) =~= prefix.push(sv@));
                assert(is_tree_path(prefix.push(sv@)));
            }
            let ks = child.collect_active_subscriptions(current_path, result);
            let ghost v1 = current_path@;
            current_path.pop();
            proof {
                assert(items_view(v1) == prefix.push(sv@));
                assert forall|m: int| 0 <= m < prefix.len() implies items_view(current_path@)[m] == prefix[m] by {
                    assert(current_path@[m] == v1[m]);
                    assert(items_view(v1)[m] == prefix.push(sv@)[m]);
                }
                assert(items_view(current_path@) =~= prefix);
                lemma_prefix_keys(sv@, ks@);
                keys = keys0 + prefix_keys(sv@, ks@);
                self.lemma_append_child_keys(prefix, start, before, result@, keys0, sv@, ks@, *child, i as int);
                assert forall|k: Seq<ItemView>|
                    is_erased(k) && (#[trigger] self.lookup(k)) is Some && !key_at_or_after(self.exact_children@, k, i + 1)
                        implies keys.contains(k) by {
                    if key_at_or_after(self.exact_children@, k, i as int) {
                        let li = label_index(self.exact_children@, k[0]->Str_0);
                        assert(li == i);
                        assert(self.exact_children@[li].0@ == k[0]->Str_0);
                        assert(k[0] == sv@);
                    } else {
                        assert(keys0.contains(k));
                        let j = choose|j: int| 0 <= j < keys0.len() && keys0[j] == k;
                        assert(keys[j] == k);
                    }
                }
            }
            i = i + 1;
        }
        proof {
            assert forall|k: Seq<ItemView>| is_erased(k) && (#[trigger] self.lookup(k)) is Some implies keys.contains(k) by {
                if key_at_or_after(self.exact_children@, k, self.exact_children@.len() as int) {
                    let c = label_index(self.exact_children@, k[0]->Str_0);
                    assert(c < self.exact_children@.len());
                }
            }
        }
        Ghost(keys)
    }
}


/// The key is not a child key at or after child `i`: it is empty, starts
/// with `#` or `+`, or starts with the label of an earlier child.
pub open spec fn key_before<T>(children: Seq<(String, Box<TopicMatcherNode<T>>)>, k: Seq<ItemView>, i: int) -> bool {
    ||| k.len() == 0
    ||| k[0] is Hash
    ||| k[0] is Plus
    ||| (k[0] is Str && 0 <= label_index(children, k[0]->Str_0) < i)
}

/// The key starts with the label of child `i` or of a later one.
pub open spec fn key_at_or_after<T>(children: Seq<(String, Box<TopicMatcherNode<T>>)>, k: Seq<ItemView>, i: int) -> bool {
    k.len() > 0 && k[0] is Str && label_index(children, k[0]->Str_0) >= i
}

impl<T> TopicMatcherNode<T> {
    /// Appending the keys of one child (the `+` child when `it` is `+`, else
    /// child `i`) keeps the listing of this node.
    proof fn lemma_append_child_keys<'a>(
        &self,
        prefix: Seq<ItemView>,
        start: Seq<(TopicPatternPath, &'a SubscriptionTable<T>)>,
        before: Seq<(TopicPatternPath, &'a SubscriptionTable<T>)>,
        after: Seq<(TopicPatternPath, &'a SubscriptionTable<T>)>,
        keys0: Seq<Seq<ItemView>>,
        it: ItemView,
        ks: Seq<Seq<ItemView>>,
        child: TopicMatcherNode<T>,
        i: int,
    )
        requires
            self.wf(),
            it is Plus ==> it == ItemView::Plus(None) && self.plus_wildcard_node == Some(Box::new(child)),
            it is Str ==> 0 <= i < self.exact_children@.len() && self.exact_children@[i].1 == Box::new(child)
                && self.exact_children@[i].0@ == it->Str_0,
            !(it is Hash),
            before.len() == start.len() + keys0.len(),
            before.take(start.len() as int) == start,
            keys_distinct(keys0),
            forall|j: int|
                0 <= j < keys0.len() ==> #[trigger] self.lookup(keys0[j]) == Some(*before.skip(start.len() as int)[j].1)
                    && is_erased(keys0[j]) && before.skip(start.len() as int)[j].0.spec_items() == prefix
                    + keys0[j] && key_before(self.exact_children@, keys0[j], i),
            it is Plus ==> forall|j: int| 0 <= j < keys0.len() ==> !(keys0[j].len() > 0 && #[trigger] keys0[j][0] is Plus),
            after.len() == before.len() + ks.len(),
            after.take(before.len() as int) == before,
            child.lists_stored(prefix.push(it), after.skip(before.len() as int), ks),
            keys_distinct(ks),
        ensures
            ({
                let keys = keys0 + prefix_keys(it, ks);
                &&& after.len() == start.len() + keys.len()
                &&& after.take(start.len() as int) == start
                &&& keys_distinct(keys)
                &&& forall|j: int|
                    0 <= j < keys.len() ==> #[trigger] self.lookup(keys[j]) == Some(
                        *after.skip(start.len() as int)[j].1,
                    ) && is_erased(keys[j]) && after.skip(start.len() as int)[j].0.spec_items() == prefix
                        + keys[j] && key_before(self.exact_children@, keys[j], if it is Str { i + 1 } else { i })
                &&& forall|k: Seq<ItemView>|
                    is_erased(k) && (#[trigger] self.lookup(k)) is Some && k.len() > 0 && k[0] == it
                        ==> keys.contains(k)
            }),
    {
        let pk = prefix_keys(it, ks);
        let keys = keys0 + pk;
        lemma_prefix_keys(it, ks);
        assert(after.take(start.len() as int) =~= start) by {
            assert forall|j: int| 0 <= j < start.len() implies after.take(start.len() as int)[j] == start[j] by {
                assert(after[j] == before[j]);
                assert(before[j] == before.take(start.len() as int)[j]);
            }
        }
        if it is Str {
            assert(label_index(self.exact_children@, it->Str_0) == i) by {
                let li = label_index(self.exact_children@, it->Str_0);
                if li != i {
                    assert(self.exact_children@[li].0@ == self.exact_children@[i].0@);
                }
            }
        }
        assert forall|j: int| 0 <= j < keys.len() implies #[trigger] self.lookup(keys[j]) == Some(
            *after.skip(start.len() as int)[j].1,
        ) && is_erased(keys[j]) && after.skip(start.len() as int)[j].0.spec_items() == prefix + keys[j]
            && key_before(self.exact_children@, keys[j], if it is Str { i + 1 } else { i }) by {
            if j < keys0.len() {
                assert(keys[j] == keys0[j]);
                assert(after.skip(start.len() as int)[j] == before.skip(start.len() as int)[j]) by {
                    assert(after[start.len() + j] == before[start.len() + j]) by {
                        assert(after.take(before.len() as int)[start.len() + j] == after[start.len() + j]);
                    }
                }
            } else {
                let j2 = j - keys0.len();
                let kc = ks[j2];
                assert(keys[j] == pk[j2]);
                assert(pk[j2] == seq![it] + kc);
                assert((seq![it] + kc)[0] == it);
                assert((seq![it] + kc).drop_first() =~= kc);
                assert(after.skip(start.len() as int)[j] == after.skip(before.len() as int)[j2]);
                assert(child.lookup(kc) == Some(*after.skip(before.len() as int)[j2].1));
                assert(erase(seq![it] + kc) =~= seq![it] + erase(kc)) by {
                    assert(erase(seq![it] + kc).drop_first() =~= erase(kc));
                }
                assert(prefix.push(it) + kc =~= prefix + (seq![it] + kc));
            }
        }
        assert forall|a: int, b: int| 0 <= a < b < keys.len() implies #[trigger] keys[a] != #[trigger] keys[b] by {
            if a < keys0.len() && b < keys0.len() {
                assert(keys[a] == keys0[a]);
                assert(keys[b] == keys0[b]);
            } else if a >= keys0.len() && b >= keys0.len() {
                assert(keys[a] == pk[a - keys0.len()]);
                assert(keys[b] == pk[b - keys0.len()]);
            } else {
                assert(keys[a] == keys0[a]);
                assert(keys[b] == pk[b - keys0.len()]);
                assert(keys[b][0] == it);
                if keys[a] == keys[b] {
                    assert(self.lookup(keys0[a]) == Some(*before.skip(start.len() as int)[a].1));
                    assert(key_before(self.exact_children@, keys0[a], i));
                }
            }
        }
        assert forall|k: Seq<ItemView>|
            is_erased(k) && (#[trigger] self.lookup(k)) is Some && k.len() > 0 && k[0] == it implies keys.contains(k) by {
            lemma_erase_facts(k);
            let rest = k.drop_first();
            assert(self.lookup(k) == child.lookup(rest));
            assert(ks.contains(rest));
            assert(pk.contains(seq![it] + rest));
            assert(seq![it] + rest =~= k);
            let jj = choose|jj: int| 0 <= jj < pk.len() && pk[jj] == k;
            assert(keys[keys0.len() + jj] == k);
        }
    }
}

/// Two patterns of the same shape (same levels and wildcard positions, any
/// parameter names) share one table: registering under the first creates
/// it only if it was absent, registering under the second then finds it,
/// and it holds what it held before followed by both entries, in order; no
/// table of another shape changes.
pub proof fn law_same_shape_shares_table<T>(
    n0: TopicMatcherNode<T>,
    n1: TopicMatcherNode<T>,
    n2: TopicMatcherNode<T>,
    p: Seq<ItemView>,
    q: Seq<ItemView>,
    id1: SubscriptionId,
    v1: T,
    absent1: bool,
    id2: SubscriptionId,
    v2: T,
    absent2: bool,
)
    requires
        erase(p) == erase(q),
        absent1 == n0.lookup(p) is None,
        n1.lookup(p) matches Some(t) && t.spec_entries() == inserted_entries(n0.lookup(p), id1, v1),
        forall|k: Seq<ItemView>| erase(k) != erase(p) ==> #[trigger] n1.lookup(k) == n0.lookup(k),
        absent2 == n1.lookup(q) is None,
        n2.lookup(q) matches Some(t) && t.spec_entries() == inserted_entries(n1.lookup(q), id2, v2),
        forall|k: Seq<ItemView>| erase(k) != erase(q) ==> #[trigger] n2.lookup(k) == n1.lookup(k),
    ensures
        absent1 == (n0.lookup(q) is None),
        !absent2,
        n2.lookup(p) == n2.lookup(q),
        n2.lookup(p) matches Some(t) && t.spec_entries() == (match n0.lookup(p) {
            Some(t0) => t0.spec_entries(),
            None => Seq::empty(),
        }).push((id1, v1)).push((id2, v2)),
        forall|k: Seq<ItemView>| erase(k) != erase(p) ==> #[trigger] n2.lookup(k) == n0.lookup(k),
{
    n0.lemma_lookup_erase(p);
    n0.lemma_lookup_erase(q);
    n1.lemma_lookup_erase(p);
    n1.lemma_lookup_erase(q);
    n2.lemma_lookup_erase(p);
    n2.lemma_lookup_erase(q);
    match n0.lookup(p) {
        Some(t0) => {},
        None => {
            assert(seq![(id1, v1)] =~= Seq::<(SubscriptionId, T)>::empty().push((id1, v1)));
        },
    }
}

} // verus!
