//! A set that counts how often each element was added.

use std::collections::HashMap;
use vstd::multiset::Multiset;
use vstd::prelude::*;

verus! {

/// A value that a number names: two values with one number are the same
/// value. The set finds its elements by their numbers.
pub trait Handle: Copy {
    /// The number that names the value.
    spec fn key(self) -> usize;

    /// The number that names the value.
    fn key_of(&self) -> (key: usize)
        ensures
            key == self.key(),
    ;

    /// Values with one number are one value.
    proof fn lemma_key_names(self, other: Self)
        requires
            self.key() == other.key(),
        ensures
            self == other,
    ;
}

/// What a [`CountHashSet`] holds: how often each element is in it, and the
/// distinct elements in the order in which they are walked.
#[verifier::ext_equal]
pub struct CountHashSetView<T> {
    pub counts: Multiset<T>,
    pub order: Seq<T>,
}

impl<T> CountHashSetView<T> {
    /// The set that holds nothing.
    pub open spec fn empty() -> Self {
        CountHashSetView { counts: Multiset::empty(), order: Seq::empty() }
    }

    /// The walk visits exactly the elements with a positive count, each once.
    pub open spec fn wf(self) -> bool {
        &&& self.order.no_duplicates()
        &&& forall|x: T| #[trigger] self.order.contains(x) <==> self.counts.count(x) > 0
    }

    /// How often `x` is in the set.
    pub open spec fn count(self, x: T) -> nat {
        self.counts.count(x)
    }

    /// Whether `x` is in the set at all.
    pub open spec fn contains(self, x: T) -> bool {
        self.counts.count(x) > 0
    }

    /// One more occurrence of `x`; a new element is walked last.
    pub open spec fn added(self, x: T) -> Self {
        CountHashSetView {
            counts: self.counts.insert(x),
            order: if self.counts.count(x) == 0 {
                self.order.push(x)
            } else {
                self.order
            },
        }
    }

    /// One occurrence of `x` less; nothing changes when there is none.
    pub open spec fn removed(self, x: T) -> Self {
        CountHashSetView {
            counts: self.counts.remove(x),
            order: if self.counts.count(x) == 1 {
                self.order.remove(self.order.index_of(x))
            } else {
                self.order
            },
        }
    }
}

impl<T> CountHashSetView<T> {
    /// Adding keeps the walk in step with the counts.
    pub proof fn lemma_added_wf(self, x: T)
        requires
            self.wf(),
        ensures
            self.added(x).wf(),
    {
        assert(self.order.contains(x) <==> self.counts.count(x) > 0);
        assert forall|y: T| #[trigger]
            self.added(x).order.contains(y) <==> self.added(x).counts.count(y) > 0 by {
            self.lemma_added_contains(x, y);
        }
    }

    /// After `x` was added, the walk visits `x` and what it visited before.
    pub proof fn lemma_added_contains(self, x: T, y: T)
        requires
            self.wf(),
        ensures
            self.added(x).order.contains(y) <==> (y == x || self.order.contains(y)),
    {
        let after = self.added(x).order;
        if self.counts.count(x) == 0 {
            if y == x {
                assert(after[self.order.len() as int] == x);
            } else if self.order.contains(y) {
                assert(after[self.order.index_of(y)] == y);
            } else if after.contains(y) {
                assert(self.order[after.index_of(y)] == y);
            }
        }
    }

    /// Removing keeps the walk in step with the counts.
    pub proof fn lemma_removed_wf(self, x: T)
        requires
            self.wf(),
        ensures
            self.removed(x).wf(),
    {
        assert(self.order.contains(x) <==> self.counts.count(x) > 0);
        if self.counts.count(x) == 1 {
            assert(self.order[self.order.index_of(x)] == x);
        }
        assert forall|y: T| #[trigger]
            self.removed(x).order.contains(y) <==> self.removed(x).counts.count(y) > 0 by {
            self.lemma_removed_contains(x, y);
        }
    }

    /// After `x` was removed, the walk visits what it visited before, but
    /// for `x` once its last occurrence is gone.
    pub proof fn lemma_removed_contains(self, x: T, y: T)
        requires
            self.wf(),
        ensures
            self.removed(x).order.contains(y) <==> (self.order.contains(y) && (y != x
                || self.counts.count(x) > 1)),
    {
        let after = self.removed(x).order;
        assert(self.order.contains(x) <==> self.counts.count(x) > 0);
        if self.counts.count(x) == 1 {
            let i = self.order.index_of(x);
            if after.contains(y) {
                let j = after.index_of(y);
                assert(after[j] == self.order[if j < i { j } else { j + 1 }]);
            }
            if self.order.contains(y) && y != x {
                let j = self.order.index_of(y);
                assert(after[if j < i { j } else { j - 1 }] == y);
            }
        }
    }
}

/// The adds less the removes in `ops`, where `true` stands for an add and
/// `false` for a remove.
pub open spec fn net(ops: Seq<bool>) -> int
    decreases ops.len(),
{
    if ops.len() == 0 {
        0
    } else if ops.last() {
        net(ops.drop_last()) + 1
    } else {
        net(ops.drop_last()) - 1
    }
}

/// Whether, starting from the count `start`, every remove in `ops` finds an
/// occurrence to take away.
pub open spec fn never_short(start: nat, ops: Seq<bool>) -> bool {
    forall|n: int| 0 <= n <= ops.len() ==> start + #[trigger] net(ops.take(n)) >= 0
}

impl<T> CountHashSetView<T> {
    /// The set after the adds and removes of `x` that `ops` lists, in order:
    /// `true` stands for an add, `false` for a remove.
    pub open spec fn after(self, x: T, ops: Seq<bool>) -> Self
        decreases ops.len(),
    {
        if ops.len() == 0 {
            self
        } else if ops.last() {
            self.after(x, ops.drop_last()).added(x)
        } else {
            self.after(x, ops.drop_last()).removed(x)
        }
    }

    /// How many of the adds in `ops` find `x` absent: those are the adds
    /// that return `true`.
    pub open spec fn first_adds(self, x: T, ops: Seq<bool>) -> int
        decreases ops.len(),
    {
        if ops.len() == 0 {
            0
        } else if ops.last() && self.after(x, ops.drop_last()).count(x) == 0 {
            self.first_adds(x, ops.drop_last()) + 1
        } else {
            self.first_adds(x, ops.drop_last())
        }
    }

    /// How many of the removes in `ops` take the last occurrence of `x`
    /// away: those are the removes that return `true`.
    pub open spec fn last_removes(self, x: T, ops: Seq<bool>) -> int
        decreases ops.len(),
    {
        if ops.len() == 0 {
            0
        } else if !ops.last() && self.after(x, ops.drop_last()).count(x) == 1 {
            self.last_removes(x, ops.drop_last()) + 1
        } else {
            self.last_removes(x, ops.drop_last())
        }
    }

    /// Adds and removes of `x`, in whatever order, leave `x` with its count
    /// plus the adds less the removes, as long as no remove finds `x`
    /// absent. The other elements keep their counts, and the set stays
    /// well-formed.
    pub proof fn lemma_count_law(self, x: T, ops: Seq<bool>)
        requires
            self.wf(),
            never_short(self.count(x), ops),
        ensures
            self.after(x, ops).wf(),
            self.after(x, ops).count(x) == self.count(x) + net(ops),
            self.after(x, ops).contains(x) <==> self.count(x) + net(ops) > 0,
            forall|y: T| y != x ==> self.after(x, ops).count(y) == self.count(y),
        decreases ops.len(),
    {
        if ops.len() > 0 {
            let before = ops.drop_last();
            assert forall|n: int| 0 <= n <= before.len() implies self.count(x) + #[trigger] net(
                before.take(n),
            ) >= 0 by {
                assert(before.take(n) =~= ops.take(n));
            }
            self.lemma_count_law(x, before);
            assert(ops.take(ops.len() as int) =~= ops);
            let reached = self.after(x, before);
            if ops.last() {
                reached.lemma_added_wf(x);
            } else {
                reached.lemma_removed_wf(x);
            }
        }
    }

    /// Among adds and removes of `x`, in whatever order, the adds that
    /// return `true` and the removes that return `true` take turns: there
    /// is one more of the former exactly when `x` was absent before and is
    /// present after, and one more of the latter exactly when `x` was
    /// present before and is absent after.
    pub proof fn lemma_transition_law(self, x: T, ops: Seq<bool>)
        requires
            self.wf(),
        ensures
            self.after(x, ops).wf(),
            self.first_adds(x, ops) - self.last_removes(x, ops) == (if self.after(x, ops).contains(
                x,
            ) {
                1int
            } else {
                0int
            }) - (if self.contains(x) {
                1int
            } else {
                0int
            }),
        decreases ops.len(),
    {
        if ops.len() > 0 {
            let before = ops.drop_last();
            self.lemma_transition_law(x, before);
            let reached = self.after(x, before);
            if ops.last() {
                reached.lemma_added_wf(x);
            } else {
                reached.lemma_removed_wf(x);
            }
        }
    }

    /// An add that is followed at once by a remove of the same element
    /// leaves the set as it was.
    pub proof fn lemma_added_removed(self, x: T)
        requires
            self.wf(),
        ensures
            self.added(x).removed(x) == self,
    {
        if self.counts.count(x) == 0 {
            // The element that was walked last is the one that leaves.
            let pushed = self.order.push(x);
            assert(pushed[self.order.len() as int] == x);
            self.lemma_added_wf(x);
            assert(pushed.index_of(x) == self.order.len());
        }
    }
}

/// The count that a table of counts holds for `key`: none stands for zero.
spec fn stored(counts: Map<usize, usize>, key: usize) -> nat {
    if counts.contains_key(key) {
        counts[key] as nat
    } else {
        0
    }
}

/// A counted set.
///
/// An element that is added several times is in the set once, and leaves it
/// only when it was removed as often as it was added.
pub struct CountHashSet<T> {
    counts: HashMap<usize, usize>,
    order: Vec<T>,
    model: Ghost<Multiset<T>>,
}

impl<T> View for CountHashSet<T> {
    type V = CountHashSetView<T>;

    closed spec fn view(&self) -> CountHashSetView<T> {
        CountHashSetView { counts: self.model@, order: self.order@ }
    }
}

impl<T: Handle> CountHashSet<T> {
    /// What holds of every set: the walk is in step with the counts, and
    /// the counts that are stored are those of the model.
    pub closed spec fn wf(&self) -> bool {
        &&& self@.wf()
        &&& forall|x: T| #[trigger] self.model@.count(x) == stored(self.counts@, x.key())
    }

    /// A well-formed set has a well-formed view.
    pub proof fn lemma_view_wf(&self)
        requires
            self.wf(),
        ensures
            self@.wf(),
    {
    }

    /// A set that holds nothing.
    pub fn new() -> (set: Self)
        ensures
            set.wf(),
            set@ == CountHashSetView::<T>::empty(),
    {
        CountHashSet { counts: HashMap::new(), order: Vec::new(), model: Ghost(Multiset::empty()) }
    }

    /// The number of distinct elements.
    pub fn len(&self) -> (len: usize)
        requires
            self.wf(),
        ensures
            len == self@.order.len(),
    {
        self.order.len()
    }

    /// Whether the set holds nothing.
    pub fn is_empty(&self) -> (empty: bool)
        requires
            self.wf(),
        ensures
            empty == (self@.order.len() == 0),
            empty == (forall|x: T| !self@.contains(x)),
    {
        proof {
            if self.order@.len() > 0 {
                assert(self@.order.contains(self.order@[0]));
                assert(self@.contains(self.order@[0]));
            } else {
                assert forall|x: T| !self@.contains(x) by {
                    assert(!self@.order.contains(x));
                }
            }
        }
        self.order.len() == 0
    }

    /// How often `x` is in the set.
    pub fn get(&self, x: T) -> (count: usize)
        requires
            self.wf(),
        ensures
            count == self@.count(x),
    {
        match self.counts.get(&x.key_of()) {
            Some(count) => *count,
            None => 0,
        }
    }

    /// Adds one occurrence of `x`. Returns `true` when `x` was not in the
    /// set before.
    pub fn add(&mut self, x: T) -> (first: bool)
        requires
            old(self).wf(),
            old(self)@.count(x) < usize::MAX,
        ensures
            final(self).wf(),
            final(self)@ == old(self)@.added(x),
            first == (old(self)@.count(x) == 0),
    {
        let count = self.get(x);
        self.counts.insert(x.key_of(), count + 1);
        self.model = Ghost(self.model@.insert(x));
        if count == 0 {
            self.order.push(x);
        }
        proof {
            old(self)@.lemma_added_wf(x);
            assert forall|y: T| #[trigger]
                self.model@.count(y) == stored(self.counts@, y.key()) by {
                assert(old(self).model@.count(y) == stored(old(self).counts@, y.key()));
                if y.key() == x.key() {
                    y.lemma_key_names(x);
                }
            }
        }
        count == 0
    }

    /// Removes one occurrence of `x`, if there is one. Returns `true` when
    /// that was the last one.
    pub fn remove(&mut self, x: T) -> (last: bool)
        requires
            old(self).wf(),
        ensures
            final(self).wf(),
            final(self)@ == old(self)@.removed(x),
            last == (old(self)@.count(x) == 1),
    {
        let count = self.get(x);
        if count == 0 {
            return false;
        }
        if count > 1 {
            self.counts.insert(x.key_of(), count - 1);
        } else {
            self.counts.remove(&x.key_of());
            let position = self.position(x);
            self.order.remove(position);
        }
        self.model = Ghost(self.model@.remove(x));
        proof {
            old(self)@.lemma_removed_wf(x);
            assert forall|y: T| #[trigger]
                self.model@.count(y) == stored(self.counts@, y.key()) by {
                assert(old(self).model@.count(y) == stored(old(self).counts@, y.key()));
                if y.key() == x.key() {
                    y.lemma_key_names(x);
                }
            }
        }
        count == 1
    }

    /// The distinct elements, each once, in the order of the walk.
    pub fn iter(&self) -> (elements: Vec<T>)
        requires
            self.wf(),
        ensures
            elements@ == self@.order,
    {
        let mut elements: Vec<T> = Vec::new();
        let mut i: usize = 0;
        while i < self.order.len()
            invariant
                i <= self.order.len(),
                elements@ == self.order@.take(i as int),
            decreases self.order.len() - i,
        {
            elements.push(self.order[i]);
            i += 1;
        }
        elements
    }

    /// Where the walk visits `x`.
    fn position(&self, x: T) -> (position: usize)
        requires
            self.order@.no_duplicates(),
            self.order@.contains(x),
        ensures
            position == self.order@.index_of(x),
            position < self.order.len(),
    {
        let mut position: usize = 0;
        while self.order[position].key_of() != x.key_of()
            invariant
                position < self.order.len(),
                exists|j: int| position <= j < self.order.len() && self.order@[j] == x,
            decreases self.order.len() - position,
        {
            position += 1;
        }
        proof {
            self.order@[position as int].lemma_key_names(x);
        }
        position
    }
}

} // verus!
