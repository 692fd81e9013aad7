//! The slots that lose their rewards: those punished in the current batch,
//! validator by validator, and those punished in the batch before.
use crate::slot_set::{slot_range, SlotSet};
use core::ops::Range;
use std::collections::BTreeMap;
use vstd::prelude::*;

verus! {

/// The number that stands for a validator's address.
pub type ValidatorId = u64;

/// A validator that is slashed for what it did in the batch `event_batch`.
#[derive(Debug)]
pub struct SlashedValidator {
    /// The slots of the validator.
    pub slots: Range<u16>,
    pub validator: ValidatorId,
    pub event_batch: u32,
}

/// A slot that is penalized for what happened in the batch `event_batch` of
/// the epoch `event_epoch`.
#[derive(Clone, Copy, Debug)]
pub struct PenalizedSlot {
    pub slot: u16,
    pub validator: ValidatorId,
    pub event_batch: u32,
    pub event_epoch: u32,
}

/// The slots of one validator that are punished in the current batch.
#[derive(Debug)]
pub struct ValidatorSlots {
    pub validator: ValidatorId,
    pub slots: SlotSet,
}

/// Keeps track of the punished slots of the previous and the current batch.
#[derive(Debug)]
pub struct PunishedSlots {
    /// The slots that lose their rewards in the current batch, by validator.
    pub current_batch_punished_slots: Vec<ValidatorSlots>,
    /// The slots that lost their rewards in the previous batch.
    pub previous_batch_punished_slots: SlotSet,
}

/// The mathematical content of the punished slots.
pub struct PunishedSlotsView {
    pub current: Map<ValidatorId, Set<u16>>,
    pub previous: Set<u16>,
}

/// The list holds slots for the validator.
pub open spec fn holds_validator(entries: Seq<ValidatorSlots>, validator: ValidatorId) -> bool {
    exists|i: int| 0 <= i < entries.len() && (#[trigger] entries[i]).validator == validator
}

/// The position of the validator in the list.
pub open spec fn entry_of(entries: Seq<ValidatorSlots>, validator: ValidatorId) -> int {
    choose|i: int| 0 <= i < entries.len() && (#[trigger] entries[i]).validator == validator
}

/// No validator is in the list twice, and no slot twice in a set.
pub open spec fn entries_wf(entries: Seq<ValidatorSlots>) -> bool {
    &&& forall|i: int, j: int|
        0 <= i < j < entries.len() ==> (#[trigger] entries[i]).validator != (
        #[trigger] entries[j]).validator
    &&& forall|i: int| 0 <= i < entries.len() ==> (#[trigger] entries[i]).slots.wf()
}

/// The slots of the list, by validator.
pub open spec fn slots_by_validator(entries: Seq<ValidatorSlots>) -> Map<ValidatorId, Set<u16>> {
    Map::new(
        |validator: ValidatorId| holds_validator(entries, validator),
        |validator: ValidatorId| entries[entry_of(entries, validator)].slots@,
    )
}

impl View for PunishedSlots {
    type V = PunishedSlotsView;

    open spec fn view(&self) -> PunishedSlotsView {
        PunishedSlotsView {
            current: slots_by_validator(self.current_batch_punished_slots@),
            previous: self.previous_batch_punished_slots@,
        }
    }
}

/// The slots that the map holds for the validator: none where it has no
/// entry.
pub open spec fn slots_or_none(current: Map<ValidatorId, Set<u16>>, validator: ValidatorId) -> Set<
    u16,
> {
    if current.contains_key(validator) {
        current[validator]
    } else {
        Set::empty()
    }
}

/// The map with more slots for the validator.
pub open spec fn with_slots(
    current: Map<ValidatorId, Set<u16>>,
    validator: ValidatorId,
    more: Set<u16>,
) -> Map<ValidatorId, Set<u16>> {
    current.insert(validator, slots_or_none(current, validator).union(more))
}

/// All the slots of the map.
pub open spec fn all_slots(current: Map<ValidatorId, Set<u16>>) -> Set<u16> {
    Set::new(
        |slot: u16|
            exists|validator: ValidatorId|
                current.contains_key(validator) && #[trigger] current[validator].contains(slot),
    )
}

/// The slots of a range.
pub open spec fn slots_of_range(range: Range<u16>) -> Set<u16> {
    slot_range(range.start, range.end)
}

impl PunishedSlotsView {
    /// The punished slots after a slash that is reported in the batch
    /// `reporting_batch`. A slash of the same batch punishes the slots of the
    /// validator in the current batch. A slash of the batch before punishes
    /// them in the previous batch, and in the current batch the slots that
    /// the validator has in the new epoch, if it has any. An older slash
    /// punishes nothing.
    pub open spec fn slashed(
        self,
        slash: SlashedValidator,
        reporting_batch: u32,
        new_epoch_slot_range: Option<Range<u16>>,
    ) -> PunishedSlotsView {
        if slash.event_batch == reporting_batch {
            PunishedSlotsView {
                current: with_slots(self.current, slash.validator, slots_of_range(slash.slots)),
                ..self
            }
        } else if slash.event_batch + 1 == reporting_batch {
            PunishedSlotsView {
                previous: self.previous.union(slots_of_range(slash.slots)),
                current: match new_epoch_slot_range {
                    Some(range) => with_slots(self.current, slash.validator, slots_of_range(range)),
                    None => self.current,
                },
            }
        } else {
            self
        }
    }

    /// The punished slots after a slash was taken back: the previous batch is
    /// as it was, and so are the slots of the validator.
    pub open spec fn slash_reverted(
        self,
        validator: ValidatorId,
        old_previous: Set<u16>,
        old_current: Option<Set<u16>>,
    ) -> PunishedSlotsView {
        PunishedSlotsView {
            previous: old_previous,
            current: match old_current {
                Some(slots) => self.current.insert(validator, slots),
                None => self.current.remove(validator),
            },
        }
    }

    /// The punished slots after a penalty that is reported in the batch
    /// `reporting_batch` of the epoch `reporting_epoch`. A penalty of the
    /// batch before punishes the slot in the previous batch; a penalty of the
    /// same epoch punishes it in the current batch.
    pub open spec fn penalized(
        self,
        slot: PenalizedSlot,
        reporting_batch: u32,
        reporting_epoch: u32,
    ) -> PunishedSlotsView {
        PunishedSlotsView {
            previous: if slot.event_batch + 1 == reporting_batch {
                self.previous.insert(slot.slot)
            } else {
                self.previous
            },
            current: if slot.event_epoch == reporting_epoch {
                with_slots(self.current, slot.validator, set![slot.slot])
            } else {
                self.current
            },
        }
    }

    /// Whether the penalty punishes the slot newly in the current batch.
    pub open spec fn newly_punished(self, slot: PenalizedSlot, reporting_epoch: u32) -> bool {
        slot.event_epoch == reporting_epoch && !slots_or_none(self.current, slot.validator).contains(
            slot.slot,
        )
    }

    /// The punished slots after a penalty was taken back: the slot leaves the
    /// batches in which it was newly punished, and the validator the current
    /// batch with its last slot.
    pub open spec fn penalty_reverted(
        self,
        slot: PenalizedSlot,
        newly_punished_previous_batch: bool,
        newly_punished_current_batch: bool,
    ) -> PunishedSlotsView {
        PunishedSlotsView {
            previous: if newly_punished_previous_batch {
                self.previous.remove(slot.slot)
            } else {
                self.previous
            },
            current: if newly_punished_current_batch {
                let rest = self.current[slot.validator].remove(slot.slot);
                if rest == Set::<u16>::empty() {
                    self.current.remove(slot.validator)
                } else {
                    self.current.insert(slot.validator, rest)
                }
            } else {
                self.current
            },
        }
    }

    /// The punished slots at the end of a batch: the slots of the current
    /// batch are those of the previous batch now, and the validators that are
    /// active again leave the current batch.
    pub open spec fn batch_finalized(self, active: Set<ValidatorId>) -> PunishedSlotsView {
        PunishedSlotsView {
            previous: all_slots(self.current),
            current: self.current.remove_keys(active),
        }
    }

    /// The punished slots at the end of an epoch: the slots of the current
    /// batch are those of the previous batch now, and the new epoch begins
    /// with no slot punished.
    pub open spec fn epoch_finalized(self) -> PunishedSlotsView {
        PunishedSlotsView { previous: all_slots(self.current), current: Map::empty() }
    }
}

/// In a well-formed list, a validator is found at one position only, and the
/// map holds for it the slots found there.
pub proof fn lemma_entry(entries: Seq<ValidatorSlots>, i: int)
    requires
        entries_wf(entries),
        0 <= i < entries.len(),
    ensures
        holds_validator(entries, entries[i].validator),
        entry_of(entries, entries[i].validator) == i,
        slots_by_validator(entries).contains_key(entries[i].validator),
        slots_by_validator(entries)[entries[i].validator] == entries[i].slots@,
{
    let j = entry_of(entries, entries[i].validator);
    assert(entries[j].validator == entries[i].validator);
    if j < i {
        assert(entries[j].validator != entries[i].validator);
    } else if i < j {
        assert(entries[i].validator != entries[j].validator);
    }
}

/// A list without one of its entries holds what it held of the other
/// validators, and nothing of the validator of that entry.
pub proof fn lemma_entry_removed(entries: Seq<ValidatorSlots>, at: int)
    requires
        entries_wf(entries),
        0 <= at < entries.len(),
    ensures
        entries_wf(entries.remove(at)),
        slots_by_validator(entries.remove(at)) == slots_by_validator(entries).remove(
            entries[at].validator,
        ),
{
    let after = entries.remove(at);
    let gone = entries[at].validator;
    assert forall|i: int, j: int| 0 <= i < j < after.len() implies (#[trigger] after[i]).validator != (
    #[trigger] after[j]).validator by {
        let i0 = if i < at { i } else { i + 1 };
        let j0 = if j < at { j } else { j + 1 };
        assert(after[i] == entries[i0] && after[j] == entries[j0]);
        assert(entries[i0].validator != entries[j0].validator);
    }
    assert forall|i: int| 0 <= i < after.len() implies (#[trigger] after[i]).slots.wf() by {
        let i0 = if i < at { i } else { i + 1 };
        assert(after[i] == entries[i0]);
    }
    let before_map = slots_by_validator(entries);
    let after_map = slots_by_validator(after);
    assert forall|v: ValidatorId| after_map.contains_key(v) == before_map.remove(gone).contains_key(
        v,
    ) by {
        if holds_validator(after, v) {
            let i = entry_of(after, v);
            let i0 = if i < at { i } else { i + 1 };
            assert(after[i] == entries[i0]);
            lemma_entry(entries, i0);
            if v == gone {
                lemma_entry(entries, at);
            }
        }
        if holds_validator(entries, v) && v != gone {
            let i0 = entry_of(entries, v);
            let i = if i0 < at { i0 } else { i0 - 1 };
            assert(after[i] == entries[i0]);
        }
    }
    assert forall|v: ValidatorId| after_map.contains_key(v) implies after_map[v] == before_map.remove(
        gone,
    )[v] by {
        let i = entry_of(after, v);
        let i0 = if i < at { i } else { i + 1 };
        assert(after[i] == entries[i0]);
        lemma_entry(entries, i0);
    }
    assert(after_map =~= before_map.remove(gone));
}

/// A list with an entry for one more validator holds what it held, and the
/// slots of that entry for the validator.
pub proof fn lemma_entry_added(entries: Seq<ValidatorSlots>, entry: ValidatorSlots)
    requires
        entries_wf(entries),
        entry.slots.wf(),
        !holds_validator(entries, entry.validator),
    ensures
        entries_wf(entries.push(entry)),
        slots_by_validator(entries.push(entry)) == slots_by_validator(entries).insert(
            entry.validator,
            entry.slots@,
        ),
{
    let after = entries.push(entry);
    assert forall|i: int, j: int| 0 <= i < j < after.len() implies (#[trigger] after[i]).validator != (
    #[trigger] after[j]).validator by {
        assert(after[i] == entries[i]);
        if j < entries.len() {
            assert(after[j] == entries[j]);
            assert(entries[i].validator != entries[j].validator);
        }
    }
    assert forall|i: int| 0 <= i < after.len() implies (#[trigger] after[i]).slots.wf() by {
        if i < entries.len() {
            assert(after[i] == entries[i]);
        }
    }
    let before_map = slots_by_validator(entries);
    let after_map = slots_by_validator(after);
    let expected = before_map.insert(entry.validator, entry.slots@);
    assert forall|v: ValidatorId| after_map.contains_key(v) == expected.contains_key(v) by {
        if holds_validator(after, v) && v != entry.validator {
            let i = entry_of(after, v);
            assert(after[i] == entries[i]);
        }
        if holds_validator(entries, v) {
            let i = entry_of(entries, v);
            assert(after[i] == entries[i]);
        }
        if v == entry.validator {
            assert(after[entries.len() as int] == entry);
        }
    }
    assert forall|v: ValidatorId| after_map.contains_key(v) implies after_map[v] == expected[v] by {
        let i = entry_of(after, v);
        lemma_entry(after, i);
        if i < entries.len() {
            assert(after[i] == entries[i]);
            lemma_entry(entries, i);
        }
    }
    assert(after_map =~= expected);
}

/// The slots of the entries before position `n`.
pub open spec fn slots_before(entries: Seq<ValidatorSlots>, n: int) -> Set<u16>
    decreases n,
{
    if n <= 0 {
        Set::empty()
    } else {
        slots_before(entries, n - 1).union(entries[n - 1].slots@)
    }
}

/// The slots of the entries before position `n` are the slots that some
/// entry before `n` holds.
pub proof fn lemma_slots_before(entries: Seq<ValidatorSlots>, n: int)
    requires
        0 <= n <= entries.len(),
    ensures
        forall|slot: u16|
            slots_before(entries, n).contains(slot) <==> exists|i: int|
                0 <= i < n && (#[trigger] entries[i]).slots@.contains(slot),
    decreases n,
{
    if n > 0 {
        lemma_slots_before(entries, n - 1);
        assert forall|slot: u16|
            slots_before(entries, n).contains(slot) <==> exists|i: int|
                0 <= i < n && (#[trigger] entries[i]).slots@.contains(slot) by {
            if slots_before(entries, n - 1).contains(slot) {
                let i = choose|i: int|
                    0 <= i < n - 1 && (#[trigger] entries[i]).slots@.contains(slot);
                assert(entries[i].slots@.contains(slot));
            }
            if exists|i: int| 0 <= i < n && (#[trigger] entries[i]).slots@.contains(slot) {
                let i = choose|i: int| 0 <= i < n && (#[trigger] entries[i]).slots@.contains(slot);
                if i < n - 1 {
                    assert(entries[i].slots@.contains(slot));
                }
            }
        }
    }
}

/// The slots of all entries of a well-formed list are all the slots of its
/// map.
pub proof fn lemma_all_slots(entries: Seq<ValidatorSlots>)
    requires
        entries_wf(entries),
    ensures
        slots_before(entries, entries.len() as int) == all_slots(slots_by_validator(entries)),
{
    let map = slots_by_validator(entries);
    let n = entries.len() as int;
    lemma_slots_before(entries, n);
    assert forall|slot: u16| slots_before(entries, n).contains(slot) == all_slots(map).contains(
        slot,
    ) by {
        if slots_before(entries, n).contains(slot) {
            let i = choose|i: int| 0 <= i < n && (#[trigger] entries[i]).slots@.contains(slot);
            lemma_entry(entries, i);
            assert(map[entries[i].validator].contains(slot));
        }
        if all_slots(map).contains(slot) {
            let v = choose|v: ValidatorId|
                map.contains_key(v) && #[trigger] map[v].contains(slot);
            let i = entry_of(entries, v);
            assert(entries[i].slots@.contains(slot));
        }
    }
    assert(slots_before(entries, n) =~= all_slots(map));
}

/// Taking a slash back undoes it: the punished slots are what they were
/// before the slash was registered.
pub proof fn lemma_reverting_undoes_slash(
    p: PunishedSlotsView,
    slash: SlashedValidator,
    reporting_batch: u32,
    new_epoch_slot_range: Option<Range<u16>>,
)
    requires
        p.slashed(slash, reporting_batch, new_epoch_slot_range).current.contains_key(
            slash.validator,
        ),
    ensures
        p.slashed(slash, reporting_batch, new_epoch_slot_range).slash_reverted(
            slash.validator,
            p.previous,
            if p.current.contains_key(slash.validator) {
                Some(p.current[slash.validator])
            } else {
                None
            },
        ) == p,
{
    let q = p.slashed(slash, reporting_batch, new_epoch_slot_range);
    let back = q.slash_reverted(
        slash.validator,
        p.previous,
        if p.current.contains_key(slash.validator) {
            Some(p.current[slash.validator])
        } else {
            None
        },
    );
    assert(back.current =~= p.current);
}

/// Taking a penalty back undoes it: the punished slots are what they were
/// before the penalty was registered, unless the validator was held without
/// any slot.
pub proof fn lemma_reverting_undoes_penalty(
    p: PunishedSlotsView,
    slot: PenalizedSlot,
    reporting_batch: u32,
    reporting_epoch: u32,
)
    requires
        !(p.current.contains_key(slot.validator) && p.current[slot.validator] == Set::<
            u16,
        >::empty()),
    ensures
        p.penalized(slot, reporting_batch, reporting_epoch).penalty_reverted(
            slot,
            !p.previous.contains(slot.slot),
            p.newly_punished(slot, reporting_epoch),
        ) == p,
{
    let q = p.penalized(slot, reporting_batch, reporting_epoch);
    let back = q.penalty_reverted(
        slot,
        !p.previous.contains(slot.slot),
        p.newly_punished(slot, reporting_epoch),
    );
    let held = slots_or_none(p.current, slot.validator);
    assert(back.previous =~= p.previous);
    if p.newly_punished(slot, reporting_epoch) {
        let rest = q.current[slot.validator].remove(slot.slot);
        assert(rest =~= held);
        if rest == Set::<u16>::empty() {
            assert(!p.current.contains_key(slot.validator));
        }
    } else if slot.event_epoch == reporting_epoch {
        assert(held.union(set![slot.slot]) =~= held);
        assert(p.current.contains_key(slot.validator));
    }
    assert(back.current =~= p.current);
}

impl PunishedSlots {
    /// No validator is held twice, and no slot twice for a validator or for
    /// the previous batch.
    pub open spec fn wf(&self) -> bool {
        entries_wf(self.current_batch_punished_slots@) && self.previous_batch_punished_slots.wf()
    }

    /// No slot is punished.
    pub fn new() -> (slots: Self)
        ensures
            slots.wf(),
            slots@.current == Map::<ValidatorId, Set<u16>>::empty(),
            slots@.previous == Set::<u16>::empty(),
    {
        let slots = PunishedSlots {
            current_batch_punished_slots: Vec::new(),
            previous_batch_punished_slots: SlotSet::new(),
        };
        proof {
            assert(slots@.current =~= Map::<ValidatorId, Set<u16>>::empty());
        }
        slots
    }

    /// The position of the validator among the validators of the current
    /// batch.
    fn position(&self, validator: ValidatorId) -> (at: Option<usize>)
        ensures
            match at {
                Some(i) => i < self.current_batch_punished_slots@.len()
                    && self.current_batch_punished_slots@[i as int].validator == validator,
                None => !holds_validator(self.current_batch_punished_slots@, validator),
            },
    {
        let mut i: usize = 0;
        while i < self.current_batch_punished_slots.len()
            invariant
                i <= self.current_batch_punished_slots.len(),
                forall|j: int|
                    0 <= j < i ==> (#[trigger] self.current_batch_punished_slots@[j]).validator
                        != validator,
            decreases self.current_batch_punished_slots.len() - i,
        {
            if self.current_batch_punished_slots[i].validator == validator {
                return Some(i);
            }
            i += 1;
        }
        None
    }

    /// The slots of the validator that are punished in the current batch, if
    /// the current batch holds the validator.
    pub fn current_slots_of(&self, validator: ValidatorId) -> (slots: Option<SlotSet>)
        requires
            self.wf(),
        ensures
            match slots {
                Some(set) => set.wf() && self@.current.contains_key(validator) && set@
                    == self@.current[validator],
                None => !self@.current.contains_key(validator),
            },
    {
        match self.position(validator) {
            Some(at) => {
                proof {
                    lemma_entry(self.current_batch_punished_slots@, at as int);
                }
                Some(self.current_batch_punished_slots[at].slots.copy())
            },
            None => None,
        }
    }

    /// Takes the validator out of the current batch, with its slots.
    fn take_validator(&mut self, validator: ValidatorId) -> (slots: Option<SlotSet>)
        requires
            old(self).wf(),
        ensures
            final(self).wf(),
            final(self)@.current == old(self)@.current.remove(validator),
            final(self)@.previous == old(self)@.previous,
            final(self).previous_batch_punished_slots == old(self).previous_batch_punished_slots,
            match slots {
                Some(set) => set.wf() && old(self)@.current.contains_key(validator) && set@
                    == old(self)@.current[validator],
                None => !old(self)@.current.contains_key(validator),
            },
    {
        match self.position(validator) {
            Some(at) => {
                proof {
                    lemma_entry(self.current_batch_punished_slots@, at as int);
                    lemma_entry_removed(self.current_batch_punished_slots@, at as int);
                }
                let entry = self.current_batch_punished_slots.remove(at);
                Some(entry.slots)
            },
            None => {
                proof {
                    assert(self@.current =~= self@.current.remove(validator));
                }
                None
            },
        }
    }

    /// Puts a validator that the current batch does not hold into it.
    fn put_validator(&mut self, validator: ValidatorId, slots: SlotSet)
        requires
            old(self).wf(),
            slots.wf(),
            !old(self)@.current.contains_key(validator),
        ensures
            final(self).wf(),
            final(self)@.current == old(self)@.current.insert(validator, slots@),
            final(self)@.previous == old(self)@.previous,
            final(self).previous_batch_punished_slots == old(self).previous_batch_punished_slots,
    {
        let entry = ValidatorSlots { validator, slots };
        proof {
            lemma_entry_added(self.current_batch_punished_slots@, entry);
        }
        self.current_batch_punished_slots.push(entry);
    }

    /// Punishes the slots of a range for the validator in the current batch.
    fn punish_range(&mut self, validator: ValidatorId, start: u16, end: u16)
        requires
            old(self).wf(),
        ensures
            final(self).wf(),
            final(self)@.current == with_slots(
                old(self)@.current,
                validator,
                slot_range(start, end),
            ),
            final(self)@.previous == old(self)@.previous,
            final(self).previous_batch_punished_slots == old(self).previous_batch_punished_slots,
    {
        let mut slots = match self.take_validator(validator) {
            Some(slots) => slots,
            None => SlotSet::new(),
        };
        slots.insert_range(start, end);
        self.put_validator(validator, slots);
        proof {
            assert(self@.current =~= with_slots(
                old(self)@.current,
                validator,
                slot_range(start, end),
            ));
        }
    }

    /// Registers a slash that is reported in the batch `reporting_batch`.
    /// Returns what the previous batch and the validator held before.
    pub fn register_slash(
        &mut self,
        slashed_validator: &SlashedValidator,
        reporting_batch: u32,
        new_epoch_slot_range: &Option<Range<u16>>,
    ) -> (old_slots: (SlotSet, Option<SlotSet>))
        requires
            old(self).wf(),
        ensures
            final(self).wf(),
            final(self)@ == old(self)@.slashed(
                *slashed_validator,
                reporting_batch,
                *new_epoch_slot_range,
            ),
            old_slots.0.wf(),
            old_slots.0@ == old(self)@.previous,
            match old_slots.1 {
                Some(set) => set.wf() && old(self)@.current.contains_key(
                    slashed_validator.validator,
                ) && set@ == old(self)@.current[slashed_validator.validator],
                None => !old(self)@.current.contains_key(slashed_validator.validator),
            },
    {
        let old_previous_batch_punished_slots = self.previous_batch_punished_slots.copy();
        let old_current_batch_punished_slots = self.current_slots_of(slashed_validator.validator);

        if slashed_validator.event_batch == reporting_batch {
            self.punish_range(
                slashed_validator.validator,
                slashed_validator.slots.start,
                slashed_validator.slots.end,
            );
        } else if reporting_batch > 0 && slashed_validator.event_batch == reporting_batch - 1 {
            // Reported during subsequent batch, so changes the previous set.
            self.previous_batch_punished_slots.insert_range(
                slashed_validator.slots.start,
                slashed_validator.slots.end,
            );
            // If the validator wasn't elected for the new epoch, then we don't slash.
            match new_epoch_slot_range {
                Some(slots) => {
                    self.punish_range(slashed_validator.validator, slots.start, slots.end);
                },
                None => {},
            }
        }
        (old_previous_batch_punished_slots, old_current_batch_punished_slots)
    }

    /// Takes a slash back: the previous batch and the validator hold what
    /// they held before it.
    pub fn revert_register_slash(
        &mut self,
        slashed_validator: &SlashedValidator,
        old_previous_batch_punished_slots: SlotSet,
        old_current_batch_punished_slots: Option<SlotSet>,
    )
        requires
            old(self).wf(),
            old_previous_batch_punished_slots.wf(),
            old_current_batch_punished_slots matches Some(set) ==> set.wf(),
            old(self)@.current.contains_key(slashed_validator.validator),
        ensures
            final(self).wf(),
            final(self)@ == old(self)@.slash_reverted(
                slashed_validator.validator,
                old_previous_batch_punished_slots@,
                match old_current_batch_punished_slots {
                    Some(set) => Some(set@),
                    None => None,
                },
            ),
    {
        self.previous_batch_punished_slots = old_previous_batch_punished_slots;
        self.take_validator(slashed_validator.validator);
        match old_current_batch_punished_slots {
            Some(set) => {
                self.put_validator(slashed_validator.validator, set);
                proof {
                    assert(self@.current =~= old(self)@.current.insert(
                        slashed_validator.validator,
                        set@,
                    ));
                }
            },
            None => {},
        }
    }

    /// Registers a penalty that is reported in the batch `reporting_batch`
    /// of the epoch `reporting_epoch`. Says whether the slot was not punished
    /// in the previous batch before, and whether it is newly punished in the
    /// current batch.
    pub fn register_penalty(
        &mut self,
        penalized_slot: &PenalizedSlot,
        reporting_batch: u32,
        reporting_epoch: u32,
    ) -> (newly: (bool, bool))
        requires
            old(self).wf(),
        ensures
            final(self).wf(),
            final(self)@ == old(self)@.penalized(*penalized_slot, reporting_batch, reporting_epoch),
            newly.0 == !old(self)@.previous.contains(penalized_slot.slot),
            newly.1 == old(self)@.newly_punished(*penalized_slot, reporting_epoch),
    {
        let newly_punished_previous_batch = !self.previous_batch_punished_slots.contains(
            penalized_slot.slot,
        );
        let mut newly_punished_current_batch = false;

        // Reported during subsequent batch, so changes the previous set.
        if reporting_batch > 0 && penalized_slot.event_batch == reporting_batch - 1 {
            self.previous_batch_punished_slots.insert(penalized_slot.slot);
        }
        // Only apply the penalty to the current set if the epoch is the same.
        if penalized_slot.event_epoch == reporting_epoch {
            let mut slots = match self.take_validator(penalized_slot.validator) {
                Some(slots) => slots,
                None => SlotSet::new(),
            };
            newly_punished_current_batch = slots.insert(penalized_slot.slot);
            self.put_validator(penalized_slot.validator, slots);
            proof {
                let before = slots_or_none(old(self)@.current, penalized_slot.validator);
                assert(before.insert(penalized_slot.slot) =~= before.union(
                    set![penalized_slot.slot],
                ));
                assert(self@.current =~= with_slots(
                    old(self)@.current,
                    penalized_slot.validator,
                    set![penalized_slot.slot],
                ));
            }
        }
        (newly_punished_previous_batch, newly_punished_current_batch)
    }

    /// Takes a penalty back.
    pub fn revert_register_penalty(
        &mut self,
        penalized_slot: &PenalizedSlot,
        newly_punished_previous_batch: bool,
        newly_punished_current_batch: bool,
    )
        requires
            old(self).wf(),
            newly_punished_current_batch ==> old(self)@.current.contains_key(
                penalized_slot.validator,
            ) && old(self)@.current[penalized_slot.validator].contains(penalized_slot.slot),
        ensures
            final(self).wf(),
            final(self)@ == old(self)@.penalty_reverted(
                *penalized_slot,
                newly_punished_previous_batch,
                newly_punished_current_batch,
            ),
    {
        if newly_punished_previous_batch {
            self.previous_batch_punished_slots.remove(penalized_slot.slot);
        }
        if newly_punished_current_batch {
            match self.take_validator(penalized_slot.validator) {
                Some(slots) => {
                    let mut slots = slots;
                    slots.remove(penalized_slot.slot);
                    if !slots.is_empty() {
                        self.put_validator(penalized_slot.validator, slots);
                        proof {
                            assert(self@.current =~= old(self)@.current.insert(
                                penalized_slot.validator,
                                slots@,
                            ));
                        }
                    }
                },
                None => {},
            }
        }
    }

    /// At the end of a batch, the current batch becomes the previous one, and
    /// the validators that are active again leave the current batch.
    pub fn finalize_batch(&mut self, current_active_validators: &BTreeMap<ValidatorId, u64>)
        requires
            old(self).wf(),
        ensures
            final(self).wf(),
            final(self)@ == old(self)@.batch_finalized(current_active_validators@.dom()),
    {
        broadcast use vstd::std_specs::btree::group_btree_axioms;

        // Updates the previous set with the current one.
        self.previous_batch_punished_slots = self.current_batch_punished_slots();

        // Remove all validators that are active again.
        let ghost before = self@.current;
        let ghost active = current_active_validators@.dom();
        let mut i: usize = 0;
        proof {
            assert(self@.current =~= before.remove_keys(Set::empty()));
        }
        while i < self.current_batch_punished_slots.len()
            invariant
                self.wf(),
                i <= self.current_batch_punished_slots.len(),
                active == current_active_validators@.dom(),
                self@.previous == all_slots(before),
                forall|k: int|
                    0 <= k < i ==> !active.contains(
                        (#[trigger] self.current_batch_punished_slots@[k]).validator,
                    ),
                forall|v: ValidatorId| #[trigger]
                    self@.current.contains_key(v) ==> before.contains_key(v) && self@.current[v]
                        == before[v],
                forall|v: ValidatorId| #[trigger]
                    before.contains_key(v) && !active.contains(v) ==> self@.current.contains_key(v),
            decreases self.current_batch_punished_slots.len() - i,
        {
            let validator = self.current_batch_punished_slots[i].validator;
            let ghost held = self@.current;
            let ghost entries = self.current_batch_punished_slots@;
            if current_active_validators.contains_key(&validator) {
                proof {
                    lemma_entry_removed(entries, i as int);
                }
                self.current_batch_punished_slots.remove(i);
                proof {
                    let rest = self.current_batch_punished_slots@;
                    assert(self@.current == held.remove(validator));
                    assert(active.contains(validator));
                    assert forall|k: int| 0 <= k < i implies !active.contains(
                        (#[trigger] rest[k]).validator,
                    ) by {
                        assert(rest[k] == entries[k]);
                    }
                    assert forall|v: ValidatorId| self@.current.contains_key(v) implies before.contains_key(
                        v,
                    ) && self@.current[v] == before[v] by {
                        assert(held.contains_key(v));
                    }
                    assert forall|v: ValidatorId|
                        before.contains_key(v) && !active.contains(v) implies self@.current.contains_key(
                        v,
                    ) by {
                        assert(held.contains_key(v));
                    }
                }
            } else {
                i += 1;
            }
        }
        proof {
            let entries = self.current_batch_punished_slots@;
            let kept = before.remove_keys(active);
            assert forall|v: ValidatorId| self@.current.contains_key(v) implies !active.contains(
                v,
            ) by {
                let k = entry_of(entries, v);
                assert(!active.contains(entries[k].validator));
            }
            assert forall|v: ValidatorId| self@.current.contains_key(v) == kept.contains_key(v) by {
                assert(kept.contains_key(v) == (before.dom().contains(v) && !active.contains(v)));
            }
            assert forall|v: ValidatorId| self@.current.contains_key(v) implies self@.current[v]
                == kept[v] by {
                assert(kept.contains_key(v));
            }
            assert(self@.current =~= kept);
        }
    }

    /// At the end of an epoch, the current batch becomes the previous one,
    /// and the new epoch begins with no slot punished.
    pub fn finalize_epoch(&mut self)
        requires
            old(self).wf(),
        ensures
            final(self).wf(),
            final(self)@ == old(self)@.epoch_finalized(),
    {
        // Updates the previous set with the current one.
        self.previous_batch_punished_slots = self.current_batch_punished_slots();

        // At an epoch boundary, the next starting set is empty.
        self.current_batch_punished_slots = Vec::new();
        proof {
            assert(self@.current =~= Map::<ValidatorId, Set<u16>>::empty());
        }
    }

    /// The slots that are punished in the current batch.
    pub fn current_batch_punished_slots(&self) -> (slots: SlotSet)
        requires
            self.wf(),
        ensures
            slots.wf(),
            slots@ == all_slots(self@.current),
    {
        let mut slots = SlotSet::new();
        let mut i: usize = 0;
        while i < self.current_batch_punished_slots.len()
            invariant
                slots.wf(),
                i <= self.current_batch_punished_slots.len(),
                slots@ == slots_before(self.current_batch_punished_slots@, i as int),
            decreases self.current_batch_punished_slots.len() - i,
        {
            slots.insert_all(&self.current_batch_punished_slots[i].slots);
            i += 1;
        }
        proof {
            lemma_all_slots(self.current_batch_punished_slots@);
        }
        slots
    }

    /// The slots that were punished in the previous batch.
    pub fn previous_batch_punished_slots(&self) -> (slots: &SlotSet)
        ensures
            *slots == self.previous_batch_punished_slots,
    {
        &self.previous_batch_punished_slots
    }
}

} // verus!
