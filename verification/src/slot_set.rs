//! A set of validator slots.
use vstd::prelude::*;

verus! {

/// A sequence with one more element holds what it held, and that element.
pub proof fn lemma_push_contains<T>(s: Seq<T>, x: T)
    ensures
        forall|a: T| s.push(x).contains(a) <==> s.contains(a) || a == x,
        s.no_duplicates() && !s.contains(x) ==> s.push(x).no_duplicates(),
{
    let after = s.push(x);
    assert(after[s.len() as int] == x);
    assert forall|a: T| after.contains(a) <==> s.contains(a) || a == x by {
        if s.contains(a) {
            let k = choose|k: int| 0 <= k < s.len() && s[k] == a;
            assert(after[k] == a);
        }
        if after.contains(a) {
            let k = choose|k: int| 0 <= k < after.len() && after[k] == a;
            if k < s.len() {
                assert(s[k] == a);
            }
        }
    }
    if s.no_duplicates() && !s.contains(x) {
        assert forall|i: int, j: int| 0 <= i < after.len() && 0 <= j < after.len() && i != j implies after[i]
            != after[j] by {
            if i < s.len() {
                assert(s[i] == after[i]);
            }
            if j < s.len() {
                assert(s[j] == after[j]);
            }
        }
    }
}

/// A sequence without duplicates that loses one element holds what it held
/// but that element, and still without duplicates.
pub proof fn lemma_remove_contains<T>(s: Seq<T>, at: int)
    requires
        s.no_duplicates(),
        0 <= at < s.len(),
    ensures
        s.remove(at).no_duplicates(),
        forall|a: T| s.remove(at).contains(a) <==> s.contains(a) && a != s[at],
{
    let after = s.remove(at);
    assert forall|i: int, j: int| 0 <= i < after.len() && 0 <= j < after.len() && i != j implies after[i]
        != after[j] by {
        let i0 = if i < at { i } else { i + 1 };
        let j0 = if j < at { j } else { j + 1 };
        assert(after[i] == s[i0] && after[j] == s[j0]);
    }
    assert forall|a: T| after.contains(a) <==> s.contains(a) && a != s[at] by {
        if s.contains(a) && a != s[at] {
            let k = choose|k: int| 0 <= k < s.len() && s[k] == a;
            let k1 = if k < at { k } else { k - 1 };
            assert(after[k1] == a);
        }
        if after.contains(a) {
            let k = choose|k: int| 0 <= k < after.len() && after[k] == a;
            let k0 = if k < at { k } else { k + 1 };
            assert(s[k0] == a);
            assert(k0 != at);
        }
    }
}

/// The slots from `start` up to, but without, `end`.
pub open spec fn slot_range(start: u16, end: u16) -> Set<u16> {
    Set::new(|slot: u16| start <= slot < end)
}

/// A set of slots.
#[derive(Debug)]
pub struct SlotSet {
    /// The slots of the set, each once.
    pub slots: Vec<u16>,
}

impl View for SlotSet {
    type V = Set<u16>;

    open spec fn view(&self) -> Set<u16> {
        self.slots@.to_set()
    }
}

impl SlotSet {
    /// No slot is held twice.
    pub open spec fn wf(&self) -> bool {
        self.slots@.no_duplicates()
    }

    /// The empty set.
    pub fn new() -> (set: Self)
        ensures
            set.wf(),
            set@ == Set::<u16>::empty(),
    {
        let set = SlotSet { slots: Vec::new() };
        proof {
            assert(set@ =~= Set::<u16>::empty());
        }
        set
    }

    pub fn is_empty(&self) -> (empty: bool)
        ensures
            empty == (self@ == Set::<u16>::empty()),
    {
        proof {
            if self.slots@.len() > 0 {
                assert(self.slots@.contains(self.slots@[0]));
                assert(self@.contains(self.slots@[0]));
            } else {
                assert(self@ =~= Set::<u16>::empty());
            }
        }
        self.slots.len() == 0
    }

    /// The number of slots in the set.
    pub fn len(&self) -> (n: usize)
        requires
            self.wf(),
        ensures
            n == self@.len(),
            self@.finite(),
    {
        proof {
            self.slots@.unique_seq_to_set();
        }
        self.slots.len()
    }

    /// The position of `slot` among the slots of the set.
    fn position(&self, slot: u16) -> (at: Option<usize>)
        ensures
            match at {
                Some(i) => i < self.slots@.len() && self.slots@[i as int] == slot,
                None => !self.slots@.contains(slot),
            },
    {
        let mut i: usize = 0;
        while i < self.slots.len()
            invariant
                i <= self.slots.len(),
                forall|j: int| 0 <= j < i ==> self.slots@[j] != slot,
            decreases self.slots.len() - i,
        {
            if self.slots[i] == slot {
                return Some(i);
            }
            i += 1;
        }
        None
    }

    pub fn contains(&self, slot: u16) -> (found: bool)
        ensures
            found == self@.contains(slot),
    {
        self.position(slot).is_some()
    }

    /// Adds a slot. Says whether the set did not hold it before.
    pub fn insert(&mut self, slot: u16) -> (newly: bool)
        requires
            old(self).wf(),
        ensures
            final(self).wf(),
            final(self)@ == old(self)@.insert(slot),
            newly == !old(self)@.contains(slot),
    {
        if self.contains(slot) {
            proof {
                assert(self@ =~= self@.insert(slot));
            }
            return false;
        }
        proof {
            lemma_push_contains(self.slots@, slot);
        }
        self.slots.push(slot);
        proof {
            assert(self@ =~= old(self)@.insert(slot));
        }
        true
    }

    /// Removes a slot. Says whether the set held it.
    pub fn remove(&mut self, slot: u16) -> (held: bool)
        requires
            old(self).wf(),
        ensures
            final(self).wf(),
            final(self)@ == old(self)@.remove(slot),
            held == old(self)@.contains(slot),
    {
        match self.position(slot) {
            Some(at) => {
                proof {
                    lemma_remove_contains(self.slots@, at as int);
                }
                self.slots.remove(at);
                proof {
                    assert(self@ =~= old(self)@.remove(slot));
                }
                true
            },
            None => {
                proof {
                    assert(self@ =~= self@.remove(slot));
                }
                false
            },
        }
    }

    /// Adds the slots from `start` up to, but without, `end`.
    pub fn insert_range(&mut self, start: u16, end: u16)
        requires
            old(self).wf(),
        ensures
            final(self).wf(),
            final(self)@ == old(self)@.union(slot_range(start, end)),
    {
        let mut slot = start;
        proof {
            assert(self@ =~= old(self)@.union(slot_range(start, slot)));
        }
        while slot < end
            invariant
                self.wf(),
                start <= slot,
                slot <= end || (end < start && slot == start),
                self@ == old(self)@.union(slot_range(start, slot)),
            decreases end - slot,
        {
            self.insert(slot);
            proof {
                let before = old(self)@.union(slot_range(start, slot));
                let after = old(self)@.union(slot_range(start, (slot + 1) as u16));
                assert forall|s: u16| before.insert(slot).contains(s) == after.contains(s) by {
                    assert(slot_range(start, slot).contains(s) == (start <= s < slot));
                    assert(slot_range(start, (slot + 1) as u16).contains(s) == (start <= s < slot
                        + 1));
                }
                assert(before.insert(slot) =~= after);
            }
            slot += 1;
        }
        proof {
            assert forall|s: u16| slot_range(start, slot).contains(s) == slot_range(
                start,
                end,
            ).contains(s) by {
                assert(slot_range(start, slot).contains(s) == (start <= s < slot));
                assert(slot_range(start, end).contains(s) == (start <= s < end));
            }
            assert(slot_range(start, slot) =~= slot_range(start, end));
        }
    }

    /// Adds the slots of `other`.
    pub fn insert_all(&mut self, other: &SlotSet)
        requires
            old(self).wf(),
        ensures
            final(self).wf(),
            final(self)@ == old(self)@.union(other@),
    {
        let mut i: usize = 0;
        proof {
            assert(other.slots@.take(0).to_set() =~= Set::<u16>::empty());
            assert(self@ =~= old(self)@.union(other.slots@.take(0).to_set()));
        }
        while i < other.slots.len()
            invariant
                self.wf(),
                i <= other.slots.len(),
                self@ == old(self)@.union(other.slots@.take(i as int).to_set()),
            decreases other.slots.len() - i,
        {
            self.insert(other.slots[i]);
            proof {
                let x = other.slots@[i as int];
                let before = other.slots@.take(i as int);
                let next = other.slots@.take(i + 1);
                assert(next =~= before.push(x));
                lemma_push_contains(before, x);
                assert forall|s: u16| next.to_set().contains(s) == before.to_set().insert(
                    x,
                ).contains(s) by {
                    assert(next.to_set().contains(s) == next.contains(s));
                    assert(before.to_set().contains(s) == before.contains(s));
                }
                assert(next.to_set() =~= before.to_set().insert(x));
                assert(old(self)@.union(before.to_set()).insert(x) =~= old(self)@.union(
                    next.to_set(),
                ));
            }
            i += 1;
        }
        proof {
            assert(other.slots@.take(other.slots@.len() as int) =~= other.slots@);
        }
    }

    /// A set with the same slots.
    pub fn copy(&self) -> (set: Self)
        requires
            self.wf(),
        ensures
            set.wf(),
            set@ == self@,
            set.slots@ == self.slots@,
    {
        let mut slots: Vec<u16> = Vec::new();
        let mut i: usize = 0;
        while i < self.slots.len()
            invariant
                i <= self.slots.len(),
                slots@ == self.slots@.take(i as int),
            decreases self.slots.len() - i,
        {
            slots.push(self.slots[i]);
            proof {
                assert(self.slots@.take(i + 1) =~= self.slots@.take(i as int).push(
                    self.slots@[i as int],
                ));
            }
            i += 1;
        }
        proof {
            assert(self.slots@.take(self.slots@.len() as int) =~= self.slots@);
        }
        SlotSet { slots }
    }
}

} // verus!
