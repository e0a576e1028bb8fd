//! Subscription identifiers and the table of subscribers kept at one topic
//! pattern.
use vstd::prelude::*;

use crate::topic_match::usize_text;
use crate::text::append_str;

verus! {

/// A subscription identifier.
#[derive(Debug, Eq, PartialEq, Hash, Copy, Clone, Structural)]
pub struct SubscriptionId(usize);

impl SubscriptionId {
    /// The number behind the identifier.
    pub closed spec fn spec_value(self) -> usize {
        self.0
    }

    /// The identifier with number `n`.
    pub fn from_value(n: usize) -> (r: Self)
        ensures
            r.spec_value() == n,
    {
        SubscriptionId(n)
    }

    /// The number behind the identifier.
    pub fn value(&self) -> (r: usize)
        ensures
            r == self.spec_value(),
    {
        self.0
    }

    /// `SubscriptionId(<n>)`, as `Display` shows it.
    pub fn to_display_string(&self) -> (r: String)
        ensures
            r@ == "SubscriptionId("@ + crate::topic_match::decimal(self.spec_value() as nat) + ")"@,
    {
        let mut r = String::new();
        append_str(&mut r, "SubscriptionId(");
        let digits = usize_text(self.0);
        append_str(&mut r, digits.as_str());
        append_str(&mut r, ")");
        r
    }
}

/// Test for an empty container.
pub trait IsEmpty {
    /// The container holds nothing.
    fn is_empty(&self) -> bool;
}

/// Size of a container.
pub trait Len {
    /// The number of entries.
    fn len(&self) -> usize;
}

/// No identifier occurs twice among the entries.
pub open spec fn ids_distinct<T>(entries: Seq<(SubscriptionId, T)>) -> bool {
    forall|a: int, b: int|
        0 <= a < b < entries.len() ==> (#[trigger] entries[a]).0 != (#[trigger] entries[b]).0
}

/// The subscribers registered at one topic pattern, each under its own
/// identifier.
#[derive(Debug)]
pub struct SubscriptionTable<T> {
    entries: Vec<(SubscriptionId, T)>,
}

impl<T> SubscriptionTable<T> {
    /// The entries, in insertion order.
    pub closed spec fn spec_entries(&self) -> Seq<(SubscriptionId, T)> {
        self.entries@
    }

    /// The table holds `id`.
    pub open spec fn has(&self, id: SubscriptionId) -> bool {
        exists|i: int| 0 <= i < self.spec_entries().len() && (#[trigger] self.spec_entries()[i]).0 == id
    }

    /// No identifier occurs twice.
    pub open spec fn wf(&self) -> bool {
        ids_distinct(self.spec_entries())
    }

    /// The position of `id` among the entries.
    pub open spec fn index_of(&self, id: SubscriptionId) -> int {
        choose|i: int| 0 <= i < self.spec_entries().len() && (#[trigger] self.spec_entries()[i]).0 == id
    }

    /// The value stored under `id`, if any.
    pub open spec fn value_of(&self, id: SubscriptionId) -> Option<T> {
        if self.has(id) {
            Some(self.spec_entries()[self.index_of(id)].1)
        } else {
            None
        }
    }

    /// The value stored under `id`.
    pub fn get(&self, id: SubscriptionId) -> (r: Option<&T>)
        requires
            self.wf(),
        ensures
            match r {
                Some(v) => self.value_of(id) == Some(*v),
                None => !self.has(id),
            },
    {
        let mut i: usize = 0;
        while i < self.entries.len()
            invariant
                0 <= i <= self.entries@.len(),
                ids_distinct(self.entries@),
                forall|k: int| 0 <= k < i ==> self.entries@[k].0 != id,
            decreases self.entries@.len() - i,
        {
            if self.entries[i].0 == id {
                proof {
                    assert(self.spec_entries()[i as int].0 == id);
                    let j = self.index_of(id);
                    assert(j == i) by {
                        if j != i {
                            assert(self.spec_entries()[j].0 == self.spec_entries()[i as int].0);
                        }
                    }
                }
                return Some(&self.entries[i].1);
            }
            i = i + 1;
        }
        None
    }

    /// An empty table.
    pub fn new() -> (r: Self)
        ensures
            r.spec_entries().len() == 0,
            r.wf(),
    {
        SubscriptionTable { entries: Vec::new() }
    }

    /// The number of subscribers.
    pub fn entry_count(&self) -> (r: usize)
        ensures
            r == self.spec_entries().len(),
    {
        self.entries.len()
    }

    /// The table holds no subscriber.
    pub fn has_no_entries(&self) -> (r: bool)
        ensures
            r == (self.spec_entries().len() == 0),
    {
        self.entries.len() == 0
    }

    /// The `i`-th entry.
    pub fn entry(&self, i: usize) -> (r: &(SubscriptionId, T))
        requires
            i < self.spec_entries().len(),
        ensures
            *r == self.spec_entries()[i as int],
    {
        &self.entries[i]
    }

    /// Whether the table holds `id`.
    pub fn contains(&self, id: SubscriptionId) -> (r: bool)
        ensures
            r == self.has(id),
    {
        let mut i: usize = 0;
        while i < self.entries.len()
            invariant
                0 <= i <= self.entries@.len(),
                forall|k: int| 0 <= k < i ==> self.entries@[k].0 != id,
            decreases self.entries@.len() - i,
        {
            if self.entries[i].0 == id {
                assert(self.spec_entries()[i as int].0 == id);
                return true;
            }
            i = i + 1;
        }
        false
    }

    /// Adds a subscriber under a new identifier.
    pub fn insert(&mut self, id: SubscriptionId, value: T)
        requires
            old(self).wf(),
            !old(self).has(id),
        ensures
            final(self).spec_entries() == old(self).spec_entries().push((id, value)),
            final(self).wf(),
    {
        let ghost before = self.entries@;
        self.entries.push((id, value));
        proof {
            assert forall|a: int, b: int|
                0 <= a < b < self.entries@.len() implies (#[trigger] self.entries@[a]).0 != (
                #[trigger] self.entries@[b]).0 by {
                if b < before.len() {
                    assert(self.entries@[a] == before[a]);
                    assert(self.entries@[b] == before[b]);
                } else {
                    assert(self.entries@[a] == before[a]);
                    assert(self.entries@[a].0 != id) by {
                        if self.entries@[a].0 == id {
                            assert(self.spec_entries()[a].0 == id);
                        }
                    };
                }
            }
        }
    }

    /// Removes the subscriber with `id`, giving back its value.
    pub fn remove(&mut self, id: SubscriptionId) -> (r: Option<T>)
        requires
            old(self).wf(),
        ensures
            final(self).wf(),
            old(self).has(id) ==> (r matches Some(v) && exists|i: int|
                0 <= i < old(self).spec_entries().len() && old(self).spec_entries()[i] == (id, v)
                    && final(self).spec_entries() == old(self).spec_entries().remove(i)),
            !old(self).has(id) ==> r is None && final(self).spec_entries() == old(self).spec_entries(),
    {
        let ghost before = self.entries@;
        let mut i: usize = 0;
        while i < self.entries.len()
            invariant
                0 <= i <= self.entries@.len(),
                self.entries@ == before,
                old(self).spec_entries() == before,
                ids_distinct(before),
                forall|k: int| 0 <= k < i ==> before[k].0 != id,
            decreases self.entries@.len() - i,
        {
            if self.entries[i].0 == id {
                let e = self.entries.remove(i);
                proof {
                    assert forall|a: int, b: int|
                        0 <= a < b < self.entries@.len() implies (#[trigger] self.entries@[a]).0
                        != (#[trigger] self.entries@[b]).0 by {
                        let a0 = if a < i { a } else { a + 1 };
                        let b0 = if b < i { b } else { b + 1 };
                        assert(self.entries@[a] == before[a0]);
                        assert(self.entries@[b] == before[b0]);
                    }
                    assert(before[i as int].0 == id);
                    assert(before[i as int] == (id, e.1));
                    assert(self.entries@ =~= before.remove(i as int));
                    assert(old(self).spec_entries() == before);
                    assert(old(self).spec_entries()[i as int].0 == id);
                    assert(old(self).has(id));
                }
                return Some(e.1);
            }
            i = i + 1;
        }
        None
    }
}

impl<T> IsEmpty for SubscriptionTable<T> {
    fn is_empty(&self) -> (r: bool)
        ensures
            r == (self.spec_entries().len() == 0),
    {
        self.has_no_entries()
    }
}

impl<T> Len for SubscriptionTable<T> {
    fn len(&self) -> (r: usize)
        ensures
            r == self.spec_entries().len(),
    {
        self.entry_count()
    }
}

/// In a table without repeated identifiers, the value stored under the
/// identifier of an entry is the value of that entry.
pub proof fn lemma_value_of<T>(t: SubscriptionTable<T>, i: int)
    requires
        t.wf(),
        0 <= i < t.spec_entries().len(),
    ensures
        t.has(t.spec_entries()[i].0),
        t.index_of(t.spec_entries()[i].0) == i,
        t.value_of(t.spec_entries()[i].0) == Some(t.spec_entries()[i].1),
{
    let id = t.spec_entries()[i].0;
    assert(t.has(id));
    let j = t.index_of(id);
    assert(j == i) by {
        if j != i {
            assert(t.spec_entries()[j].0 == t.spec_entries()[i].0);
        }
    }
}

} // verus!
