//! The remembered set: the addresses of the fields in the old generation
//! that may point into the young generation.
use vstd::prelude::*;
use crate::types::Value;

verus! {

/// A set of values, kept in the order in which they were recorded.
pub struct RememberedSet {
    entries: Vec<Value>,
}

/// A pass over the values of a remembered set.
pub struct RememberedSetIterator<'a> {
    set: &'a RememberedSet,
    index: usize,
}

impl View for RememberedSet {
    type V = Seq<Value>;

    /// The recorded values, in the order in which they were recorded.
    closed spec fn view(&self) -> Seq<Value> {
        self.entries@
    }
}

impl RememberedSet {
    /// Whether `value` is recorded.
    pub open spec fn spec_contains(&self, value: Value) -> bool {
        self@.contains(value)
    }

    /// An empty set.
    pub fn new() -> (set: RememberedSet)
        ensures
            set@ == Seq::<Value>::empty(),
    {
        RememberedSet { entries: Vec::new() }
    }

    /// Whether `value` is recorded.
    pub fn contains(&self, value: Value) -> (b: bool)
        ensures
            b == self.spec_contains(value),
    {
        let mut i: usize = 0;
        while i < self.entries.len()
            invariant
                i <= self.entries@.len(),
                forall|k: int| 0 <= k < i ==> self.entries@[k] != value,
            decreases self.entries@.len() - i,
        {
            if self.entries[i].get_raw() == value.get_raw() {
                return true;
            }
            i = i + 1;
        }
        false
    }

    /// Records `value`, unless it is recorded already.
    pub fn insert(&mut self, value: Value)
        ensures
            final(self)@ == (if old(self).spec_contains(value) {
                old(self)@
            } else {
                old(self)@.push(value)
            }),
            final(self).spec_contains(value),
            forall|v: Value| old(self).spec_contains(v) ==> final(self).spec_contains(v),
    {
        if !self.contains(value) {
            self.entries.push(value);
            proof {
                assert(self.entries@[self.entries@.len() - 1] == value);
                assert forall|v: Value| old(self).spec_contains(v) implies self.spec_contains(
                    v,
                ) by {
                    let k = choose|k: int| 0 <= k < old(self)@.len() && old(self)@[k] == v;
                    assert(self@[k] == v);
                }
            }
        }
    }

    /// Number of recorded values.
    pub fn count(&self) -> (n: usize)
        ensures
            n == self@.len(),
    {
        self.entries.len()
    }

    /// A pass over the recorded values, from the first one on.
    pub fn iterate(&self) -> (it: RememberedSetIterator<'_>)
        ensures
            it.values() == self@,
            it.position() == 0,
    {
        RememberedSetIterator { set: self, index: 0 }
    }
}

impl<'a> RememberedSetIterator<'a> {
    /// The values that the pass goes over.
    pub closed spec fn values(&self) -> Seq<Value> {
        self.set@
    }

    /// Number of values that the pass has left behind.
    pub closed spec fn position(&self) -> int {
        self.index as int
    }

    /// Whether a value is left.
    pub fn has_next(&self) -> (b: bool)
        ensures
            b == (self.position() < self.values().len()),
    {
        self.index < self.set.entries.len()
    }

    /// The value at which the pass stands.
    pub fn current(&self) -> (value: Value)
        requires
            self.position() < self.values().len(),
        ensures
            value == self.values()[self.position()],
    {
        self.set.entries[self.index]
    }

    /// Moves on to the next value.
    pub fn next(&mut self)
        requires
            old(self).position() < old(self).values().len(),
        ensures
            final(self).values() == old(self).values(),
            final(self).position() == old(self).position() + 1,
    {
        let n: usize = self.set.entries.len();
        if self.index < n {
            self.index = self.index + 1;
        }
    }
}

} // verus!
