use vstd::prelude::*;
use crate::handle::Handle;

verus! {

/// The largest number of slots a pool hands out; slot `0xFFFF` is reserved
/// for the invalid handle.
pub const MAX_POOL_SLOTS: usize = 0xFFFFusize;

/// One storage slot of a pool: its current generation and its occupant.
pub struct PoolSlot<T> {
    pub generation: u16,
    pub value: Option<T>,
}

/// A generational slot pool. Inserting returns a handle, releasing frees the
/// slot and bumps its generation so the old handle no longer resolves, and
/// `entries` lists the live handles in insertion order.
pub struct Pool<T> {
    slots: Vec<PoolSlot<T>>,
    live: Vec<Handle>,
}

impl<T> Pool<T> {
    /// `h` names the current occupant of its slot.
    pub closed spec fn occupies(self, h: Handle) -> bool {
        &&& (h.slot as int) < self.slots@.len()
        &&& self.slots@[h.slot as int].value is Some
        &&& self.slots@[h.slot as int].generation == h.generation
    }

    pub closed spec fn wf(self) -> bool {
        &&& self.slots@.len() <= MAX_POOL_SLOTS
        &&& self.live@.no_duplicates()
        &&& forall|i: int| 0 <= i < self.live@.len() ==> #[trigger] self.occupies(self.live@[i])
        &&& forall|s: int|
            0 <= s < self.slots@.len() && (#[trigger] self.slots@[s]).value is Some ==> self.live@.contains(
                Handle { slot: s as u16, generation: self.slots@[s].generation },
            )
    }

    /// The generation slot `s` hands out next: the one its live handle
    /// carries, or the one its next occupant will get (0 for a slot never used).
    pub closed spec fn generation_of(self, s: u16) -> u16 {
        if (s as int) < self.slots@.len() { self.slots@[s as int].generation } else { 0 }
    }

    /// The live handles, in the order they were inserted.
    pub closed spec fn live_handles(self) -> Seq<Handle> {
        self.live@
    }

    /// The pool as a map from live handles to their values.
    pub closed spec fn view(self) -> Map<Handle, T> {
        self.live@.to_set().mk_map(|h: Handle| self.slots@[h.slot as int].value->Some_0)
    }

    /// Every slot a pool may use holds a live value: nothing more fits.
    pub open spec fn is_full(self) -> bool {
        forall|s: u16| (s as int) < MAX_POOL_SLOTS ==> #[trigger] self.slot_taken(s)
    }

    /// Some live value sits in slot `s`.
    pub open spec fn slot_taken(self, s: u16) -> bool {
        exists|h: Handle| self@.contains_key(h) && h.slot == s
    }

    proof fn lemma_occupies_iff_live(self, h: Handle)
        requires
            self.wf(),
        ensures
            self.occupies(h) <==> self.live@.contains(h),
            self@.contains_key(h) <==> self.live@.contains(h),
    {
        broadcast use vstd::set::group_set_axioms;
        if self.occupies(h) {
            let s = h.slot as int;
            assert(self.slots@[s].value is Some);
            assert(Handle { slot: s as u16, generation: self.slots@[s].generation } == h);
        }
        if self.live@.contains(h) {
            let i = choose|i: int| 0 <= i < self.live@.len() && self.live@[i] == h;
            assert(self.occupies(self.live@[i]));
        }
    }

    /// A pool whose every slot is occupied holds `MAX_POOL_SLOTS` values.
    proof fn lemma_full_len(self)
        requires
            self.wf(),
            self.slots@.len() == MAX_POOL_SLOTS,
            forall|s: int| 0 <= s < MAX_POOL_SLOTS ==> (#[trigger] self.slots@[s]).value is Some,
        ensures
            self@.len() >= MAX_POOL_SLOTS,
    {
        broadcast use vstd::set::group_set_axioms;
        let hs = Seq::new(
            MAX_POOL_SLOTS as nat,
            |s: int| Handle { slot: s as u16, generation: self.slots@[s].generation },
        );
        assert(hs.no_duplicates()) by {
            assert forall|a: int, b: int| 0 <= a < hs.len() && 0 <= b < hs.len() && a != b implies hs[a] != hs[b] by {
                assert(hs[a].slot == a as u16);
                assert(hs[b].slot == b as u16);
            }
        }
        hs.unique_seq_to_set();
        assert(hs.to_set().subset_of(self.live@.to_set())) by {
            assert forall|x: Handle| hs.to_set().contains(x) implies self.live@.to_set().contains(x) by {
                let j = choose|j: int| 0 <= j < hs.len() && hs[j] == x;
                assert(self.slots@[j].value is Some);
            }
        }
        self.live@.unique_seq_to_set();
        vstd::set_lib::lemma_len_subset(hs.to_set(), self.live@.to_set());
    }

    /// A value put in a pool is what its handle then reads, and releasing the
    /// handle makes it read nothing while every other handle reads as before.
    pub proof fn lemma_insert_release(a: Self, b: Self, c: Self, h: Handle, v: T)
        requires
            b@ == a@.insert(h, v),
            c@ == b@.remove(h),
            !a@.contains_key(h),
        ensures
            b@.contains_key(h) && b@[h] == v,
            !c@.contains_key(h),
            c@ == a@,
    {
        assert(c@ =~= a@);
    }

    /// A live handle carries its slot's current generation.
    pub proof fn lemma_live_generation(self, h: Handle)
        requires
            self.wf(),
            self@.contains_key(h),
        ensures
            h.generation == self.generation_of(h.slot),
    {
        self.lemma_occupies_iff_live(h);
    }

    /// A released handle is not handed out again by the next insert: the
    /// release moves its slot's generation on by one (wrapping), and an insert
    /// hands out its slot's current generation.
    pub proof fn lemma_released_handle_not_reissued(a: Self, b: Self, h: Handle, n: Handle)
        requires
            a.wf(),
            a@.contains_key(h),
            b.generation_of(h.slot) as int == (a.generation_of(h.slot) as int + 1) % 0x10000,
            n.generation == b.generation_of(n.slot),
        ensures
            n != h,
    {
        a.lemma_live_generation(h);
    }

    /// Every live handle of a pool is a valid handle.
    pub proof fn lemma_live_valid(self, h: Handle)
        requires
            self.wf(),
            self@.contains_key(h),
        ensures
            h.is_valid(),
    {
        self.lemma_occupies_iff_live(h);
    }

    /// A pool never holds more than `MAX_POOL_SLOTS` values.
    pub proof fn lemma_len_bound(self)
        requires
            self.wf(),
        ensures
            self@.len() <= MAX_POOL_SLOTS,
    {
        broadcast use vstd::set::group_set_axioms;
        let hs = Seq::new(
            self.slots@.len(),
            |s: int| Handle { slot: s as u16, generation: self.slots@[s].generation },
        );
        hs.lemma_cardinality_of_set();
        assert(self.live@.to_set().subset_of(hs.to_set())) by {
            assert forall|x: Handle| self.live@.to_set().contains(x) implies hs.to_set().contains(x) by {
                let j = choose|j: int| 0 <= j < self.live@.len() && self.live@[j] == x;
                assert(self.occupies(self.live@[j]));
                assert(hs[x.slot as int] == x);
            }
        }
        vstd::set_lib::lemma_len_subset(self.live@.to_set(), hs.to_set());
    }

    pub fn new() -> (p: Pool<T>)
        ensures
            p.wf(),
            p@ == Map::<Handle, T>::empty(),
            p.live_handles() == Seq::<Handle>::empty(),
            forall|s: u16| #[trigger] p.generation_of(s) == 0,
    {
        let p = Pool { slots: Vec::new(), live: Vec::new() };
        proof {
            broadcast use vstd::set::group_set_axioms;
            assert(p.live@.to_set() =~= Set::<Handle>::empty());
            assert(p@ =~= Map::<Handle, T>::empty());
        }
        p
    }

    /// Number of live values.
    pub fn len(&self) -> (n: usize)
        requires
            self.wf(),
        ensures
            n == self@.len(),
            n == self.live_handles().len(),
    {
        proof {
            broadcast use vstd::set::group_set_axioms;
            self.live@.unique_seq_to_set();
        }
        self.live.len()
    }

    /// The live handles, in insertion order (no handle twice).
    pub fn entries(&self) -> (e: &Vec<Handle>)
        requires
            self.wf(),
        ensures
            e@ == self.live_handles(),
            e@.no_duplicates(),
            forall|h: Handle| self@.contains_key(h) <==> e@.contains(h),
    {
        proof {
            assert forall|h: Handle| self@.contains_key(h) <==> self.live@.contains(h) by {
                self.lemma_occupies_iff_live(h);
            }
        }
        &self.live
    }

    /// Whether some live value sits in slot `slot`.
    pub fn contains_slot(&self, slot: u16) -> (b: bool)
        requires
            self.wf(),
        ensures
            b == self.slot_taken(slot),
    {
        let mut i: usize = 0;
        while i < self.live.len()
            invariant
                self.wf(),
                i <= self.live@.len(),
                forall|j: int| 0 <= j < i ==> self.live@[j].slot != slot,
            decreases self.live@.len() - i,
        {
            if self.live[i].slot == slot {
                proof {
                    self.lemma_occupies_iff_live(self.live@[i as int]);
                }
                return true;
            }
            i += 1;
        }
        proof {
            assert forall|h: Handle| self@.contains_key(h) implies h.slot != slot by {
                self.lemma_occupies_iff_live(h);
                let k = choose|k: int| 0 <= k < self.live@.len() && self.live@[k] == h;
            }
        }
        false
    }

    /// Whether `h` names a live value.
    pub fn contains(&self, h: Handle) -> (b: bool)
        requires
            self.wf(),
        ensures
            b == self@.contains_key(h),
    {
        proof {
            self.lemma_occupies_iff_live(h);
        }
        if (h.slot as usize) < self.slots.len() {
            let slot = &self.slots[h.slot as usize];
            slot.generation == h.generation && slot.value.is_some()
        } else {
            false
        }
    }

    /// The value that `h` names, if it is live.
    pub fn get(&self, h: Handle) -> (r: Option<&T>)
        requires
            self.wf(),
        ensures
            r == (if self@.contains_key(h) { Some(&self@[h]) } else { None }),
    {
        proof {
            self.lemma_occupies_iff_live(h);
            broadcast use vstd::set::group_set_axioms;
        }
        if (h.slot as usize) < self.slots.len() {
            let slot = &self.slots[h.slot as usize];
            if slot.generation == h.generation {
                match &slot.value {
                    Some(v) => Some(v),
                    None => None,
                }
            } else {
                None
            }
        } else {
            None
        }
    }

    /// Stores `value` in the lowest free slot and returns its handle, or
    /// `None` when every slot is taken.
    pub fn insert(&mut self, value: T) -> (r: Option<Handle>)
        requires
            old(self).wf(),
        ensures
            final(self).wf(),
            r is None <==> old(self).is_full(),
            old(self)@.len() < MAX_POOL_SLOTS ==> r is Some,
            r is None ==> final(self)@ == old(self)@ && final(self).live_handles() == old(self).live_handles(),
            forall|s: u16| #[trigger] final(self).generation_of(s) == old(self).generation_of(s),
            r matches Some(h) ==> {
                &&& h.is_valid()
                &&& h.generation == old(self).generation_of(h.slot)
                &&& !old(self)@.contains_key(h)
                &&& !old(self).slot_taken(h.slot)
                &&& forall|s: u16| s < h.slot ==> #[trigger] old(self).slot_taken(s)
                &&& final(self)@ == old(self)@.insert(h, value)
                &&& final(self).live_handles() == old(self).live_handles().push(h)
            },
    {
        let mut i: usize = 0;
        while i < self.slots.len() && self.slots[i].value.is_some()
            invariant
                i <= self.slots@.len(),
                forall|j: int| 0 <= j < i ==> (#[trigger] self.slots@[j]).value is Some,
            decreases self.slots@.len() - i,
        {
            i += 1;
        }
        proof {
            broadcast use vstd::set::group_set_axioms;
            assert forall|s: u16| (s as int) < i implies #[trigger] old(self).slot_taken(s) by {
                let hs = Handle { slot: s, generation: self.slots@[s as int].generation };
                old(self).lemma_occupies_iff_live(hs);
            }
        }
        if i == self.slots.len() && i >= MAX_POOL_SLOTS {
            proof {
                assert forall|s: u16| (s as int) < MAX_POOL_SLOTS implies #[trigger] old(self).slot_taken(s) by {
                    let hs = Handle { slot: s, generation: self.slots@[s as int].generation };
                    old(self).lemma_occupies_iff_live(hs);
                }
                old(self).lemma_full_len();
            }
            return None;
        }
        proof {
            let s = i as u16;
            assert(!old(self).slot_taken(s)) by {
                if old(self).slot_taken(s) {
                    let h = choose|h: Handle| old(self)@.contains_key(h) && h.slot == s;
                    old(self).lemma_occupies_iff_live(h);
                }
            }
        }
        let ghost old_slots = self.slots@;
        let ghost old_live = self.live@;
        if i == self.slots.len() {
            self.slots.push(PoolSlot { generation: 0, value: Some(value) });
        } else {
            let generation = self.slots[i].generation;
            self.slots.set(i, PoolSlot { generation, value: Some(value) });
        }
        let h = Handle { slot: i as u16, generation: self.slots[i].generation };
        proof {
            assert(!old_live.contains(h)) by {
                if old_live.contains(h) {
                    let k = choose|k: int| 0 <= k < old_live.len() && old_live[k] == h;
                    assert(old(self).occupies(old_live[k]));
                }
            }
        }
        self.live.push(h);
        proof {
            broadcast use vstd::set::group_set_axioms;
            assert(self.live@ == old_live.push(h));
            assert forall|k: int| 0 <= k < self.live@.len() implies #[trigger] self.occupies(self.live@[k]) by {
                if k < old_live.len() {
                    assert(old(self).occupies(old_live[k]));
                    assert(old_live[k].slot != h.slot);
                }
            }
            assert forall|s: int|
                0 <= s < self.slots@.len() && (#[trigger] self.slots@[s]).value is Some implies self.live@.contains(
                    Handle { slot: s as u16, generation: self.slots@[s].generation },
                ) by {
                if s != i {
                    assert(old_slots[s] == self.slots@[s]);
                    let hs = Handle { slot: s as u16, generation: self.slots@[s].generation };
                    assert(old_live.contains(hs));
                    let k = choose|k: int| 0 <= k < old_live.len() && old_live[k] == hs;
                    assert(self.live@[k] == hs);
                } else {
                    assert(self.live@[self.live@.len() - 1] == h);
                }
            }
            assert(self.live@.no_duplicates()) by {
                assert forall|a: int, b: int| 0 <= a < self.live@.len() && 0 <= b < self.live@.len() && a != b implies self.live@[a] != self.live@[b] by {
                    if a < old_live.len() && b < old_live.len() {
                    } else if a < old_live.len() {
                        assert(old_live.contains(old_live[a]));
                    } else {
                        assert(old_live.contains(old_live[b]));
                    }
                }
            }
            assert forall|x: Handle| #[trigger] self.live@.contains(x) <==> old_live.contains(x) || x == h by {
                if old_live.contains(x) {
                    let j = choose|j: int| 0 <= j < old_live.len() && old_live[j] == x;
                    assert(self.live@[j] == x);
                }
                if self.live@.contains(x) && x != h {
                    let j = choose|j: int| 0 <= j < self.live@.len() && self.live@[j] == x;
                    assert(old_live[j] == x);
                }
                if x == h {
                    assert(self.live@[self.live@.len() - 1] == h);
                }
            }
            assert(self.live@.to_set() =~= old_live.to_set().insert(h));
            assert(self@ =~= old(self)@.insert(h, value)) by {
                assert forall|x: Handle| #[trigger] self@.contains_key(x) implies self@[x] == old(self)@.insert(h, value)[x] by {
                    if x != h {
                        assert(old_live.contains(x));
                        let k = choose|k: int| 0 <= k < old_live.len() && old_live[k] == x;
                        assert(old(self).occupies(old_live[k]));
                    }
                }
            }
        }
        Some(h)
    }

    /// Frees the slot that `h` names and returns its value; the slot's
    /// generation moves on, so `h` no longer resolves.
    pub fn release(&mut self, h: Handle) -> (r: Option<T>)
        requires
            old(self).wf(),
        ensures
            final(self).wf(),
            r == (if old(self)@.contains_key(h) { Some(old(self)@[h]) } else { None }),
            final(self)@ == old(self)@.remove(h),
            forall|x: Handle| #[trigger] final(self).live_handles().contains(x) <==> old(self).live_handles().contains(x) && x != h,
            old(self)@.contains_key(h) ==> final(self).generation_of(h.slot) as int == (old(self).generation_of(h.slot) as int + 1)
                % 0x10000,
            forall|s: u16| s != h.slot || !old(self)@.contains_key(h) ==> #[trigger] final(self).generation_of(s) == old(
                self,
            ).generation_of(s),
    {
        proof {
            old(self).lemma_occupies_iff_live(h);
        }
        if !self.contains(h) {
            proof {
                broadcast use vstd::set::group_set_axioms;
                assert(self@ =~= old(self)@.remove(h));
            }
            return None;
        }
        let idx = h.slot as usize;
        let ghost old_slots = self.slots@;
        let ghost old_live = self.live@;
        let old_slot = self.slots.remove(idx);
        let next_gen = old_slot.generation.wrapping_add(1);
        self.slots.insert(idx, PoolSlot { generation: next_gen, value: None });
        let mut k: usize = 0;
        while k < self.live.len() && self.live[k] != h
            invariant
                self.live@ == old_live,
                old_live.contains(h),
                k <= old_live.len(),
                forall|j: int| 0 <= j < k ==> old_live[j] != h,
            decreases old_live.len() - k,
        {
            k += 1;
        }
        assert(old_live[k as int] == h);
        self.live.remove(k);
        let r = old_slot.value;
        proof {
            broadcast use vstd::set::group_set_axioms;
            assert(self.slots@ =~= old_slots.update(idx as int, PoolSlot { generation: next_gen, value: None }));
            assert(self.live@ =~= old_live.remove(k as int));
            assert forall|x: Handle| #[trigger] self.live@.contains(x) <==> old_live.contains(x) && x != h by {
                if old_live.contains(x) && x != h {
                    let j = choose|j: int| 0 <= j < old_live.len() && old_live[j] == x;
                    if j < k { assert(self.live@[j] == x); } else { assert(self.live@[j - 1] == x); }
                }
                if self.live@.contains(x) {
                    let j = choose|j: int| 0 <= j < self.live@.len() && self.live@[j] == x;
                    if j < k { assert(old_live[j] == x); } else { assert(old_live[j + 1] == x); }
                }
            }
            assert forall|j: int| 0 <= j < self.live@.len() implies #[trigger] self.occupies(self.live@[j]) by {
                let x = self.live@[j];
                assert(self.live@.contains(x));
                let jj = choose|jj: int| 0 <= jj < old_live.len() && old_live[jj] == x;
                assert(old(self).occupies(old_live[jj]));
                assert(x.slot != h.slot);
            }
            assert forall|s: int|
                0 <= s < self.slots@.len() && (#[trigger] self.slots@[s]).value is Some implies self.live@.contains(
                    Handle { slot: s as u16, generation: self.slots@[s].generation },
                ) by {
                let hs = Handle { slot: s as u16, generation: self.slots@[s].generation };
                assert(old_slots[s] == self.slots@[s]);
                assert(old_live.contains(hs));
            }
            assert(self.live@.no_duplicates());
            assert(self.live@.to_set() =~= old_live.to_set().remove(h));
            assert(self@ =~= old(self)@.remove(h)) by {
                assert forall|x: Handle| #[trigger] self@.contains_key(x) implies self@[x] == old(self)@[x] by {
                    let jj = choose|jj: int| 0 <= jj < old_live.len() && old_live[jj] == x;
                    assert(old(self).occupies(old_live[jj]));
                }
            }
            assert(old(self)@[h] == old_slots[idx as int].value->Some_0);
        }
        r
    }

    /// Puts `value` in place of the live value that `h` names and returns
    /// the value it held.
    pub fn replace(&mut self, h: Handle, value: T) -> (old_value: T)
        requires
            old(self).wf(),
            old(self)@.contains_key(h),
        ensures
            old_value == old(self)@[h],
            final(self).wf(),
            final(self)@ == old(self)@.insert(h, value),
            final(self).live_handles() == old(self).live_handles(),
            forall|s: u16| #[trigger] final(self).generation_of(s) == old(self).generation_of(s),
    {
        proof {
            old(self).lemma_occupies_iff_live(h);
            broadcast use vstd::set::group_set_axioms;
        }
        let ghost old_self = *self;
        let idx = h.slot as usize;
        let generation = self.slots[idx].generation;
        let mut fresh = PoolSlot { generation, value: Some(value) };
        std::mem::swap(&mut self.slots[idx], &mut fresh);
        proof {
            assert(self.slots@ =~= old_self.slots@.update(
                h.slot as int,
                PoolSlot { generation: old_self.slots@[h.slot as int].generation, value: Some(value) },
            ));
            Self::lemma_value_replaced(old_self, *self, h, value);
        }
        match fresh.value {
            Some(v) => v,
            None => vstd::pervasive::unreached(),
        }
    }

    proof fn lemma_value_replaced(a: Self, b: Self, h: Handle, v: T)
        requires
            a.wf(),
            a@.contains_key(h),
            b.live@ == a.live@,
            b.slots@ == a.slots@.update(
                h.slot as int,
                PoolSlot { generation: a.slots@[h.slot as int].generation, value: Some(v) },
            ),
        ensures
            b.wf(),
            b@ == a@.insert(h, v),
    {
        broadcast use vstd::set::group_set_axioms;
        a.lemma_occupies_iff_live(h);
        assert forall|j: int| 0 <= j < b.live@.len() implies #[trigger] b.occupies(b.live@[j]) by {
            assert(a.occupies(a.live@[j]));
        }
        assert forall|s: int|
            0 <= s < b.slots@.len() && (#[trigger] b.slots@[s]).value is Some implies b.live@.contains(
                Handle { slot: s as u16, generation: b.slots@[s].generation },
            ) by {
            if s != h.slot as int {
                assert(a.slots@[s] == b.slots@[s]);
            }
        }
        assert(b@ =~= a@.insert(h, v)) by {
            assert forall|x: Handle| #[trigger] b@.contains_key(x) implies b@[x] == a@.insert(h, v)[x] by {
                if x != h {
                    let j = choose|j: int| 0 <= j < a.live@.len() && a.live@[j] == x;
                    assert(a.occupies(a.live@[j]));
                    assert(a.live@.contains(h));
                    let jh = choose|jh: int| 0 <= jh < a.live@.len() && a.live@[jh] == h;
                    assert(a.occupies(a.live@[jh]));
                }
            }
        }
    }
}

} // verus!
