use vstd::prelude::*;

verus! {

/// A generation-checked reference to a slot of an [`Arena`].
#[derive(Clone, Copy, PartialEq, Eq, Structural, Debug, Hash)]
pub struct SlotHandle {
    pub index: usize,
    pub generation: usize,
}

/// One cell of the arena: free when `data` is `None`.
struct Slot<T> {
    generation: usize,
    data: Option<T>,
}

/// Storage with stable handles; a removed slot gets a new generation, so old
/// handles to it stop resolving.
pub struct Arena<T> {
    slots: Vec<Slot<T>>,
    count: usize,
}

/// Number of allocated slots in `s`.
spec fn num_allocated<T>(s: Seq<Slot<T>>) -> nat
    decreases s.len(),
{
    if s.len() == 0 {
        0
    } else {
        num_allocated(s.drop_last()) + if s.last().data is Some { 1nat } else { 0nat }
    }
}

/// Handles of the allocated slots of `s`, in slot order.
spec fn allocated_handles<T>(s: Seq<Slot<T>>) -> Seq<SlotHandle>
    decreases s.len(),
{
    if s.len() == 0 {
        Seq::empty()
    } else {
        let rest = allocated_handles(s.drop_last());
        if s.last().data is Some {
            rest.push(SlotHandle { index: (s.len() - 1) as usize, generation: s.last().generation })
        } else {
            rest
        }
    }
}

proof fn lemma_num_allocated_update<T>(s: Seq<Slot<T>>, j: int, x: Slot<T>)
    requires
        0 <= j < s.len(),
    ensures
        num_allocated(s.update(j, x)) + (if s[j].data is Some { 1int } else { 0int })
            == num_allocated(s) + (if x.data is Some { 1int } else { 0int }),
    decreases s.len(),
{
    if j < s.len() - 1 {
        lemma_num_allocated_update(s.drop_last(), j, x);
        assert(s.update(j, x).drop_last() =~= s.drop_last().update(j, x));
    } else {
        assert(s.update(j, x).drop_last() =~= s.drop_last());
    }
}

proof fn lemma_num_allocated_bound<T>(s: Seq<Slot<T>>)
    ensures
        num_allocated(s) <= s.len(),
    decreases s.len(),
{
    if s.len() > 0 {
        lemma_num_allocated_bound(s.drop_last());
    }
}

proof fn lemma_handles_len<T>(s: Seq<Slot<T>>)
    ensures
        allocated_handles(s).len() == num_allocated(s),
    decreases s.len(),
{
    if s.len() > 0 {
        lemma_handles_len(s.drop_last());
    }
}

proof fn lemma_handles_prefix<T>(s: Seq<Slot<T>>, i: int)
    requires
        0 <= i < s.len(),
    ensures
        allocated_handles(s.take(i + 1)) == if s[i].data is Some {
            allocated_handles(s.take(i)).push(SlotHandle { index: i as usize, generation: s[i].generation })
        } else {
            allocated_handles(s.take(i))
        },
{
    assert(s.take(i + 1).drop_last() =~= s.take(i));
}

proof fn lemma_handles_live<T>(s: Seq<Slot<T>>)
    requires
        s.len() <= usize::MAX,
    ensures
        forall|k: int| 0 <= k < allocated_handles(s).len() ==> {
            let h = #[trigger] allocated_handles(s)[k];
            &&& h.index < s.len()
            &&& s[h.index as int].data is Some
            &&& s[h.index as int].generation == h.generation
        },
    decreases s.len(),
{
    if s.len() > 0 {
        let t = s.drop_last();
        lemma_handles_live(t);
        assert forall|k: int| 0 <= k < allocated_handles(t).len() implies {
            let h = #[trigger] allocated_handles(t)[k];
            &&& h.index < s.len()
            &&& s[h.index as int].data is Some
            &&& s[h.index as int].generation == h.generation
        } by {
            let h = allocated_handles(t)[k];
            assert(s[h.index as int] == t[h.index as int]);
        }
        assert(((s.len() - 1) as usize) as int == s.len() - 1);
    }
}

proof fn lemma_handle_listed<T>(s: Seq<Slot<T>>, h: SlotHandle)
    requires
        s.len() <= usize::MAX,
        h.index < s.len(),
        s[h.index as int].data is Some,
        s[h.index as int].generation == h.generation,
    ensures
        exists|k: int| 0 <= k < allocated_handles(s).len() && allocated_handles(s)[k] == h,
    decreases s.len(),
{
    let t = s.drop_last();
    if h.index < s.len() - 1 {
        assert(t[h.index as int] == s[h.index as int]);
        lemma_handle_listed(t, h);
        let k = choose|k: int| 0 <= k < allocated_handles(t).len() && allocated_handles(t)[k] == h;
        assert(allocated_handles(s)[k] == h);
    } else {
        assert(allocated_handles(s).last() == h);
    }
}

proof fn lemma_handles_distinct<T>(s: Seq<Slot<T>>)
    requires
        s.len() <= usize::MAX,
    ensures
        allocated_handles(s).no_duplicates(),
    decreases s.len(),
{
    if s.len() > 0 {
        let t = s.drop_last();
        lemma_handles_distinct(t);
        lemma_handles_live(t);
        assert(((s.len() - 1) as usize) as int == s.len() - 1);
    }
}

proof fn lemma_handles_ordered<T>(s: Seq<Slot<T>>)
    requires
        s.len() <= usize::MAX,
    ensures
        forall|a: int, b: int| 0 <= a < b < allocated_handles(s).len() ==> allocated_handles(s)[a].index
            < allocated_handles(s)[b].index,
    decreases s.len(),
{
    if s.len() > 0 {
        let t = s.drop_last();
        lemma_handles_ordered(t);
        lemma_handles_live(t);
        assert(((s.len() - 1) as usize) as int == s.len() - 1);
        assert forall|a: int, b: int| 0 <= a < b < allocated_handles(s).len() implies allocated_handles(
            s,
        )[a].index < allocated_handles(s)[b].index by {
            assert(allocated_handles(s)[a] == allocated_handles(t)[a]);
            if b < allocated_handles(t).len() {
                assert(allocated_handles(s)[b] == allocated_handles(t)[b]);
            }
        }
    }
}

impl<T> Arena<T> {
    /// The count field agrees with the slots.
    pub closed spec fn wf(&self) -> bool {
        &&& self.count == num_allocated(self.slots@)
        &&& self.slots@.len() <= usize::MAX
    }

    /// Number of live slots.
    pub closed spec fn live_count(&self) -> nat {
        self.count as nat
    }

    /// Number of slots in the backing storage, live or free.
    pub closed spec fn slot_len(&self) -> nat {
        self.slots@.len()
    }

    /// Current generation of slot `i`.
    pub closed spec fn generation_at(&self, i: int) -> usize {
        self.slots@[i].generation
    }

    /// Whether slot `i` holds a value.
    pub closed spec fn allocated_at(&self, i: int) -> bool {
        self.slots@[i].data is Some
    }

    /// Value held in slot `i`.
    pub closed spec fn value_at(&self, i: int) -> T {
        self.slots@[i].data->0
    }

    /// Handles to every allocated slot, in slot order.
    pub closed spec fn handles(&self) -> Seq<SlotHandle> {
        allocated_handles(self.slots@)
    }

    /// `h` resolves: its slot exists, is allocated, and has `h`'s generation.
    pub open spec fn live(&self, h: SlotHandle) -> bool {
        &&& h.index < self.slot_len()
        &&& self.allocated_at(h.index as int)
        &&& self.generation_at(h.index as int) == h.generation
    }

    /// The value that a live handle resolves to.
    pub open spec fn value(&self, h: SlotHandle) -> T {
        self.value_at(h.index as int)
    }

    pub fn new() -> (r: Arena<T>)
        ensures
            r.wf(),
            r.live_count() == 0,
            r.slot_len() == 0,
    {
        Arena { slots: Vec::new(), count: 0 }
    }

    /// Number of slots in storage, live or free.
    pub fn slot_count(&self) -> (r: usize)
        ensures
            r == self.slot_len(),
    {
        self.slots.len()
    }

    pub fn count(&self) -> (r: usize)
        ensures
            r == self.live_count(),
    {
        self.count
    }

    /// Stores `data` in the first free slot that can still take a new generation,
    /// keeping that slot's generation, or in a new slot of generation 0.
    pub fn add(&mut self, data: T) -> (r: SlotHandle)
        requires
            old(self).wf(),
            old(self).slot_len() < usize::MAX,
        ensures
            final(self).wf(),
            final(self).live_count() == old(self).live_count() + 1,
            final(self).live(r),
            final(self).value(r) == data,
            !old(self).live(r),
            r.index <= old(self).slot_len(),
            r.index < old(self).slot_len() ==> {
                &&& !old(self).allocated_at(r.index as int)
                &&& r.generation == old(self).generation_at(r.index as int)
                &&& final(self).slot_len() == old(self).slot_len()
            },
            r.index == old(self).slot_len() ==> {
                &&& r.generation == 0
                &&& final(self).slot_len() == old(self).slot_len() + 1
            },
            forall|i: int| 0 <= i < old(self).slot_len() && i != r.index ==> {
                &&& final(self).allocated_at(i) == old(self).allocated_at(i)
                &&& final(self).generation_at(i) == old(self).generation_at(i)
                &&& (old(self).allocated_at(i) ==> final(self).value_at(i) == old(self).value_at(i))
            },
            forall|i: int| 0 <= i < old(self).slot_len() ==> final(self).generation_at(i)
                == old(self).generation_at(i),
            r.index < old(self).slot_len() ==> old(self).generation_at(r.index as int) < usize::MAX,
            forall|i: int| 0 <= i < r.index ==> old(self).allocated_at(i) || old(self).generation_at(i)
                == usize::MAX,
            forall|h: SlotHandle| #[trigger] old(self).stale(h) ==> final(self).stale(h),
            forall|h: SlotHandle| #[trigger] final(self).live(h) ==> old(self).live(h) || h == r,
            forall|h: SlotHandle| old(self).live(h) ==> {
                &&& final(self).live(h)
                &&& final(self).value(h) == old(self).value(h)
            },
    {
        let len = self.slots.len();
        let mut i: usize = 0;
        while i < len && !(self.slots[i].data.is_none() && self.slots[i].generation < usize::MAX)
            invariant
                len == self.slots.len(),
                i <= len,
                forall|k: int| 0 <= k < i ==> !(self.slots@[k].data is None
                    && self.slots@[k].generation < usize::MAX),
            decreases len - i,
        {
            i += 1;
        }
        let index = i;
        proof {
            lemma_num_allocated_bound(self.slots@);
        }
        let ghost old_slots = self.slots@;
        let mut generation: usize = 0;
        if index >= len {
            self.slots.push(Slot { generation, data: Some(data) });
            assert(self.slots@.drop_last() =~= old_slots);
        } else {
            generation = self.slots[index].generation;
            proof {
                lemma_num_allocated_update(old_slots, index as int, Slot { generation, data: Some(data) });
            }
            self.slots.set(index, Slot { generation, data: Some(data) });
        }
        self.count += 1;
        SlotHandle { index, generation }
    }

    /// Resolves `handle`; `None` for a stale or out-of-range handle.
    pub fn get(&self, handle: SlotHandle) -> (r: Option<&T>)
        ensures
            r matches Some(v) ==> self.live(handle) && *v == self.value(handle),
            r is None ==> !self.live(handle),
    {
        if handle.index >= self.slots.len() {
            return None;
        }
        let slot = &self.slots[handle.index];
        if slot.generation != handle.generation {
            return None;
        }
        match &slot.data {
            Some(d) => Some(d),
            None => None,
        }
    }

    /// Resolves `handle` for exclusive access; `None` for a stale or
    /// out-of-range handle.
    pub fn get_mut(&mut self, handle: SlotHandle) -> (r: Option<&mut T>)
        requires
            old(self).wf(),
        ensures
            r is None ==> !old(self).live(handle) && *final(self) == *old(self),
            r is Some ==> {
                &&& old(self).live(handle)
                &&& *(r->0) == old(self).value(handle)
                &&& final(self).wf()
                &&& final(self).live(handle)
                &&& final(self).value(handle) == *final(r->0)
                &&& final(self).live_count() == old(self).live_count()
                &&& final(self).slot_len() == old(self).slot_len()
                &&& forall|i: int| 0 <= i < old(self).slot_len() ==> {
                    &&& final(self).allocated_at(i) == old(self).allocated_at(i)
                    &&& final(self).generation_at(i) == old(self).generation_at(i)
                    &&& (i != handle.index ==> final(self).value_at(i) == old(self).value_at(i))
                }
            },
    {
        if handle.index >= self.slots.len() || self.slots[handle.index].generation
            != handle.generation || self.slots[handle.index].data.is_none() {
            return None;
        }
        let ghost old_slots = self.slots@;
        proof {
            assert forall|x: Slot<T>| x.data is Some implies num_allocated(
                #[trigger] old_slots.update(handle.index as int, x),
            ) == num_allocated(old_slots) by {
                lemma_num_allocated_update(old_slots, handle.index as int, x);
            }
        }
        let slot = &mut self.slots[handle.index];
        match &mut slot.data {
            Some(d) => Some(d),
            None => None,
        }
    }

    /// Frees the slot of a live `handle` and moves its generation on, so that
    /// `handle` and every copy of it stop resolving. When the freed slot is the
    /// last one, the run of free slots that ends there is cut off, down to
    /// (but not including) slot 0. A handle that does not resolve is ignored.
    pub fn remove(&mut self, handle: SlotHandle)
        requires
            old(self).wf(),
        ensures
            final(self).wf(),
            !final(self).live(handle),
            !old(self).live(handle) ==> *final(self) == *old(self),
            old(self).live(handle) ==> final(self).live_count() == old(self).live_count() - 1,
            old(self).live(handle) ==> forall|h: SlotHandle| #[trigger] h.index == handle.index
                ==> !final(self).live(h),
            old(self).live(handle) && handle.index < final(self).slot_len() ==> final(self).stale(
                handle,
            ),
            final(self).slot_len() <= old(self).slot_len(),
            old(self).live(handle) && handle.index + 1 < old(self).slot_len() ==> final(self).slot_len()
                == old(self).slot_len(),
            old(self).live(handle) && handle.index + 1 == old(self).slot_len() ==> {
                &&& final(self).slot_len() >= 1
                &&& (final(self).slot_len() == 1 || final(self).allocated_at(
                    final(self).slot_len() - 1,
                ))
            },
            forall|h: SlotHandle| h.index != handle.index ==> {
                &&& final(self).live(h) == old(self).live(h)
                &&& (old(self).live(h) ==> final(self).value(h) == old(self).value(h))
            },
            forall|h: SlotHandle| #[trigger] old(self).stale(h) && h.index < final(self).slot_len()
                ==> final(self).stale(h),
    {
        let index = handle.index;
        if index >= self.slots.len() || self.slots[index].generation != handle.generation
            || self.slots[index].data.is_none() {
            return;
        }
        let ghost old_slots = self.slots@;
        let generation = if handle.generation < usize::MAX {
            handle.generation + 1
        } else {
            handle.generation
        };
        proof {
            lemma_num_allocated_update(old_slots, index as int, Slot { generation, data: None });
        }
        self.slots.set(index, Slot { generation, data: None });
        self.count -= 1;
        let mut i: usize = self.slots.len() - 1;
        let trim = i == index;
        while trim && i > 0 && self.slots[i].data.is_none()
            invariant
                i + 1 == self.slots.len(),
                self.count == old(self).count - 1,
                self.wf(),
                index < old_slots.len(),
                old_slots == old(self).slots@,
                self.slots@.len() <= old_slots.len(),
                !trim ==> self.slots@.len() == old_slots.len(),
                trim == (index + 1 == old_slots.len()),
                forall|k: int| 0 <= k <= i ==> self.slots@[k] == #[trigger] old_slots.update(
                    index as int,
                    Slot { generation, data: None },
                )[k],
                forall|k: int| i < k < old_slots.len() ==> k == index || old_slots[k].data is None,
            decreases i,
        {
            let ghost before = self.slots@;
            assert(i == index || old_slots[i as int] == old_slots.update(
                index as int,
                Slot { generation, data: None },
            )[i as int]);
            self.slots.pop();
            assert(self.slots@ =~= before.drop_last());
            i -= 1;
        }
        if index <= i {
            assert(self.slots@[index as int] == old_slots.update(
                index as int,
                Slot { generation, data: None },
            )[index as int]);
        }
        assert forall|h: SlotHandle| #[trigger] old(self).stale(h) && h.index < self.slot_len()
            implies self.stale(h) by {
            assert(self.slots@[h.index as int] == old_slots.update(
                index as int,
                Slot { generation, data: None },
            )[h.index as int]);
        }
        assert forall|h: SlotHandle| h.index != index implies {
            &&& self.live(h) == old(self).live(h)
            &&& (old(self).live(h) ==> self.value(h) == old(self).value(h))
        } by {
            if h.index <= i {
                assert(self.slots@[h.index as int] == old_slots.update(
                    index as int,
                    Slot { generation, data: None },
                )[h.index as int]);
            }
        }
    }

    /// Handles to every allocated slot, in slot order.
    pub fn iter(&self) -> (r: Vec<SlotHandle>)
        requires
            self.wf(),
        ensures
            r@ == self.handles(),
    {
        let mut out: Vec<SlotHandle> = Vec::new();
        let mut i: usize = 0;
        while i < self.slots.len()
            invariant
                i <= self.slots.len(),
                out@ == allocated_handles(self.slots@.take(i as int)),
            decreases self.slots.len() - i,
        {
            proof {
                lemma_handles_prefix(self.slots@, i as int);
            }
            if self.slots[i].data.is_some() {
                out.push(SlotHandle { index: i, generation: self.slots[i].generation });
            }
            i += 1;
        }
        assert(self.slots@.take(i as int) =~= self.slots@);
        out
    }

    /// A handle whose slot has moved past it: it cannot resolve again while
    /// the slot stays in storage.
    pub open spec fn stale(&self, h: SlotHandle) -> bool {
        &&& h.index < self.slot_len()
        &&& {
            ||| self.generation_at(h.index as int) > h.generation
            ||| (self.generation_at(h.index as int) == usize::MAX && !self.allocated_at(
                h.index as int,
            ))
        }
    }

    /// One pass over the handles meets as many handles as the arena counts.
    pub proof fn lemma_count_matches_handles(&self)
        requires
            self.wf(),
        ensures
            self.handles().len() == self.live_count(),
    {
        lemma_handles_len(self.slots@);
    }

    /// Every handle met in a pass resolves.
    pub proof fn lemma_handles_are_live(&self)
        requires
            self.wf(),
        ensures
            forall|k: int| 0 <= k < self.handles().len() ==> self.live(#[trigger] self.handles()[k]),
    {
        lemma_handles_live(self.slots@);
    }

    /// A well-formed arena's handles resolve exactly when met in a pass.
    pub proof fn lemma_live_iff_handled(&self)
        requires
            self.wf(),
        ensures
            forall|h: SlotHandle| self.live(h) <==> #[trigger] self.handles().contains(h),
    {
        self.lemma_handles_are_live();
        self.lemma_live_in_handles();
    }

    /// A pass meets the slots in increasing index order.
    pub proof fn lemma_handles_in_slot_order(&self)
        requires
            self.wf(),
        ensures
            forall|a: int, b: int| 0 <= a < b < self.handles().len() ==> self.handles()[a].index
                < self.handles()[b].index,
    {
        lemma_handles_ordered(self.slots@);
    }

    /// A pass meets no handle twice.
    pub proof fn lemma_handles_distinct(&self)
        requires
            self.wf(),
        ensures
            self.handles().no_duplicates(),
    {
        lemma_handles_distinct(self.slots@);
    }

    /// Every handle that resolves is met in a pass.
    pub proof fn lemma_live_in_handles(&self)
        requires
            self.wf(),
        ensures
            forall|h: SlotHandle| self.live(h) ==> exists|k: int|
                0 <= k < self.handles().len() && self.handles()[k] == h,
    {
        assert forall|h: SlotHandle| self.live(h) implies exists|k: int|
            0 <= k < self.handles().len() && self.handles()[k] == h by {
            lemma_handle_listed(self.slots@, h);
            let k = choose|k: int|
                0 <= k < allocated_handles(self.slots@).len() && allocated_handles(self.slots@)[k] == h;
            assert(self.handles()[k] == h);
        }
    }

    /// A stale handle does not resolve.
    pub proof fn lemma_stale_not_live(&self, h: SlotHandle)
        requires
            self.stale(h),
        ensures
            !self.live(h),
    {
    }

} // impl

} // verus!
