use vstd::prelude::*;

verus! {

/// A copyable identifier for a value stored in a [`Pool`]: a slot index paired
/// with the generation the slot carried when the value was stored. Handles are
/// plain values with equality and no ownership; a handle whose value has been
/// removed goes stale and is refused by every pool operation.
#[derive(Debug, Clone, Copy, PartialEq, Eq, Hash, Structural)]
pub struct Handle {
    index: u32,
    generation: u32,
}

impl Handle {
    /// The distinguished "no handle" value: the reserved index `u32::MAX`
    /// paired with generation 1. `Pool::spawn` never returns it.
    pub closed spec fn spec_none() -> Handle {
        Handle { index: u32::MAX, generation: 1 }
    }

    /// The "no handle" value, for callers that need a placeholder.
    #[verifier::when_used_as_spec(spec_none)]
    pub fn none() -> (h: Handle)
        ensures
            h == Handle::spec_none(),
    {
        Handle { index: u32::MAX, generation: 1 }
    }

    /// The slot index this handle refers to.
    pub closed spec fn spec_index(&self) -> u32 {
        self.index
    }

    /// The generation counter this handle carries.
    pub closed spec fn spec_generation(&self) -> u32 {
        self.generation
    }

    /// True when this handle is anything but the distinguished `none` value.
    pub fn is_some(&self) -> (r: bool)
        ensures
            r == (*self != Handle::spec_none()),
    {
        let n = Handle::none();
        *self != n
    }

    /// True when this handle is the distinguished `none` value.
    pub fn is_none(&self) -> (r: bool)
        ensures
            r == (*self == Handle::spec_none()),
    {
        let n = Handle::none();
        *self == n
    }

    /// Read-only accessor for the slot index.
    pub fn index(&self) -> (i: u32)
        ensures
            i == self.spec_index(),
    {
        self.index
    }

    /// Read-only accessor for the generation counter.
    pub fn generation(&self) -> (g: u32)
        ensures
            g == self.spec_generation(),
    {
        self.generation
    }
}

/// One storage cell of a pool: a generation counter (at least 1) and an
/// optional value. Never visible outside the pool.
struct Slot<T> {
    generation: u32,
    value: Option<T>,
}

/// A generational slot arena. It owns a growable sequence of slots and a LIFO
/// stack of the indices of currently empty slots; insertion, removal and
/// lookup all go through handle validation and never touch the wrong value.
pub struct Pool<T> {
    entries: Vec<Slot<T>>,
    free_indices: Vec<u32>,
}

/// How many of the first `n` slots of `s` currently hold a value.
spec fn occupied_in_prefix<T>(s: Seq<Slot<T>>, n: int) -> nat
    decreases n,
{
    if n <= 0 {
        0
    } else {
        occupied_in_prefix(s, n - 1) + (if s[n - 1].value is Some {
            1nat
        } else {
            0nat
        })
    }
}

/// The generation a slot advances to when its value is removed: one more,
/// clamped back to 1 when the increment would wrap to 0.
pub open spec fn next_generation(g: u32) -> u32 {
    if g == u32::MAX {
        1u32
    } else {
        (g + 1) as u32
    }
}

impl<T> Pool<T> {
    /// How many slots have ever been allocated, occupied or not.
    pub closed spec fn num_slots(&self) -> nat {
        self.entries@.len()
    }

    /// The generation counter currently stored in slot `i`.
    pub closed spec fn slot_generation(&self, i: int) -> u32 {
        self.entries@[i].generation
    }

    /// The value currently stored in slot `i`, if any.
    pub closed spec fn slot_value(&self, i: int) -> Option<T> {
        self.entries@[i].value
    }

    /// The stack of free slot indices; the last element is reused first.
    pub closed spec fn free_list(&self) -> Seq<u32> {
        self.free_indices@
    }

    /// How many slots currently hold a value.
    pub closed spec fn live_count(&self) -> nat {
        occupied_in_prefix(self.entries@, self.entries@.len() as int)
    }

    /// Well-formedness of the arena: slot indices fit below the reserved
    /// `u32::MAX`, every generation counter is at least 1, every free index
    /// points at an empty slot in range, no index is on the free stack twice,
    /// and every empty slot is reachable through the free stack.
    pub closed spec fn wf(&self) -> bool {
        &&& self.entries@.len() <= u32::MAX
        &&& (forall|i: int|
            0 <= i < self.entries@.len() ==> (#[trigger] self.entries@[i]).generation >= 1)
        &&& (forall|k: int|
            0 <= k < self.free_indices@.len() ==> (#[trigger] self.free_indices@[k])
                < self.entries@.len() && self.entries@[self.free_indices@[k] as int].value is None)
        &&& (forall|k1: int, k2: int|
            0 <= k1 < k2 < self.free_indices@.len() ==> #[trigger] self.free_indices@[k1]
                != #[trigger] self.free_indices@[k2])
        &&& (forall|i: int|
            0 <= i < self.entries@.len() && (#[trigger] self.entries@[i]).value is None
                ==> self.free_indices@.contains(i as u32))
    }

    /// The arena invariant of `wf`, written over the public observers so that
    /// callers can use its content; `lemma_wf_characterization` states that
    /// the two coincide.
    pub open spec fn wf_characterized(&self) -> bool {
        &&& self.num_slots() <= u32::MAX
        &&& (forall|i: int| 0 <= i < self.num_slots() ==> #[trigger] self.slot_generation(i) >= 1)
        &&& (forall|k: int|
            0 <= k < self.free_list().len() ==> (#[trigger] self.free_list()[k])
                < self.num_slots() && self.slot_value(self.free_list()[k] as int) is None)
        &&& (forall|k1: int, k2: int|
            0 <= k1 < k2 < self.free_list().len() ==> #[trigger] self.free_list()[k1]
                != #[trigger] self.free_list()[k2])
        &&& (forall|i: int|
            0 <= i < self.num_slots() && (#[trigger] self.slot_value(i)) is None
                ==> self.free_list().contains(i as u32))
    }

    /// How many of the first `n` slots hold a value, written over the public
    /// slot observer; `live_count` equals this over all slots, see
    /// `lemma_live_count_counts_occupied_slots`.
    pub open spec fn occupied_below(&self, n: int) -> nat
        decreases n,
    {
        if n <= 0 {
            0
        } else {
            self.occupied_below(n - 1) + (if self.slot_value(n - 1) is Some {
                1nat
            } else {
                0nat
            })
        }
    }

    /// A handle resolves to a stored value iff it is not `none`, its index is
    /// within the allocated slots, the slot's current generation equals the
    /// handle's, and the slot holds a value.
    pub closed spec fn valid(&self, h: Handle) -> bool {
        &&& h != Handle::spec_none()
        &&& (h.index as int) < self.entries@.len()
        &&& self.entries@[h.index as int].generation == h.generation
        &&& self.entries@[h.index as int].value is Some
    }

    /// The value a valid handle resolves to.
    pub closed spec fn value_at(&self, h: Handle) -> T {
        self.entries@[h.index as int].value.unwrap()
    }

    /// Exactly how `spawn` changes a pool `pre` into `post` and which handle
    /// `h` it returns for the stored `value`: the handle is valid in `post`
    /// and resolves to `value`; every other slot is untouched; when the free
    /// stack was non-empty its top index is reused with that slot's existing
    /// generation, otherwise a fresh slot with generation 1 is appended.
    pub open spec fn spawn_post(pre: Pool<T>, post: Pool<T>, value: T, h: Handle) -> bool {
        &&& post.valid(h)
        &&& post.value_at(h) == value
        &&& h.spec_generation() >= 1
        &&& post.slot_value(h.spec_index() as int) == Some(value)
        &&& (forall|i: int|
            #![trigger post.slot_generation(i)]
            #![trigger post.slot_value(i)]
            0 <= i < post.num_slots() && i != h.spec_index() as int ==> post.slot_generation(i)
                == pre.slot_generation(i) && post.slot_value(i) == pre.slot_value(i))
        &&& if pre.free_list().len() > 0 {
            &&& h.spec_index() == pre.free_list().last()
            &&& h.spec_generation() == pre.slot_generation(h.spec_index() as int)
            &&& post.num_slots() == pre.num_slots()
            &&& post.slot_generation(h.spec_index() as int) == pre.slot_generation(
                h.spec_index() as int,
            )
            &&& post.free_list() == pre.free_list().drop_last()
        } else {
            &&& h.spec_index() == pre.num_slots()
            &&& h.spec_generation() == 1
            &&& post.num_slots() == pre.num_slots() + 1
            &&& post.free_list() == pre.free_list()
        }
    }

    /// Stores `value` and returns a fresh handle to it. The most recently
    /// freed slot is reused first, keeping the generation that the freeing
    /// despawn already advanced; with no free slot, a new one is appended
    /// with generation 1. Never returns the `none` handle.
    pub fn spawn(&mut self, value: T) -> (h: Handle)
        requires
            old(self).wf(),
            old(self).free_list().len() > 0 || old(self).num_slots() < u32::MAX,
        ensures
            final(self).wf(),
            final(self).valid(h),
            final(self).live_count() == old(self).live_count() + 1,
            Self::spawn_post(*old(self), *final(self), value, h),
    {
        if let Some(index) = self.free_indices.pop() {
            let i = index as usize;
            let entry = &mut self.entries[i];
            let generation = entry.generation;
            entry.value = Some(value);
            proof {
                let f = old(self).free_indices@;
                let es0 = old(self).entries@;
                assert forall|k: int|
                    0 <= k < self.free_indices@.len() implies (#[trigger] self.free_indices@[k])
                    < self.entries@.len() && self.entries@[self.free_indices@[k] as int].value
                    is None by {
                    assert(self.free_indices@[k] == f[k]);
                    assert(f[k] != f[f.len() - 1]);
                }
                assert forall|j: int|
                    0 <= j < self.entries@.len() && (#[trigger] self.entries@[j]).value
                        is None implies self.free_indices@.contains(j as u32) by {
                    assert(j != index as int);
                    assert(es0[j].value is None);
                    assert(f.contains(j as u32));
                    let k = choose|k: int| 0 <= k < f.len() && f[k] == j as u32;
                    assert(f[f.len() - 1] == index);
                    assert(k != f.len() - 1);
                    assert(self.free_indices@[k] == j as u32);
                }
                let hh = Handle { index, generation };
                assert(Self::spawn_post(*old(self), *self, value, hh));
                lemma_spawn_live_count(*old(self), *self, value, hh);
            }
            Handle { index, generation }
        } else {
            let index = self.entries.len() as u32;
            let generation: u32 = 1;
            self.entries.push(Slot { generation, value: Some(value) });
            proof {
                let hh = Handle { index, generation };
                assert(Self::spawn_post(*old(self), *self, value, hh));
                lemma_spawn_live_count(*old(self), *self, value, hh);
            }
            Handle { index, generation }
        }
    }

    /// Exactly how `despawn` changes a pool `pre` into `post` for the handle
    /// `h` and result `r`: a valid handle has its value removed and returned,
    /// its slot's generation advanced (clamped on wraparound) and its index
    /// pushed onto the free stack, every other slot untouched; an invalid
    /// handle returns `None` and changes nothing.
    pub open spec fn despawn_post(pre: Pool<T>, post: Pool<T>, h: Handle, r: Option<T>) -> bool {
        if pre.valid(h) {
            &&& r == Some(pre.value_at(h))
            &&& post.num_slots() == pre.num_slots()
            &&& post.slot_value(h.spec_index() as int) is None
            &&& post.slot_generation(h.spec_index() as int) == next_generation(
                h.spec_generation(),
            )
            &&& post.free_list() == pre.free_list().push(h.spec_index())
            &&& (forall|i: int|
                #![trigger post.slot_generation(i)]
                #![trigger post.slot_value(i)]
                0 <= i < pre.num_slots() && i != h.spec_index() as int ==> post.slot_generation(i)
                    == pre.slot_generation(i) && post.slot_value(i) == pre.slot_value(i))
        } else {
            &&& r is None
            &&& post.num_slots() == pre.num_slots()
            &&& post.free_list() == pre.free_list()
            &&& (forall|i: int|
                #![trigger post.slot_generation(i)]
                #![trigger post.slot_value(i)]
                0 <= i < pre.num_slots() ==> post.slot_generation(i) == pre.slot_generation(i)
                    && post.slot_value(i) == pre.slot_value(i))
        }
    }

    /// Removes and returns the value `handle` refers to, invalidating the
    /// handle and every copy of it. A `none`, out-of-range or stale handle is
    /// a silent no-op that returns `None`. On success the slot's generation
    /// advances (clamped back to 1 on wraparound) and its index goes on top
    /// of the free stack, making the slot the next to be reused.
    pub fn despawn(&mut self, handle: Handle) -> (r: Option<T>)
        requires
            old(self).wf(),
        ensures
            final(self).wf(),
            Self::despawn_post(*old(self), *final(self), handle, r),
            r is Some ==> final(self).live_count() + 1 == old(self).live_count(),
            r is None ==> final(self).live_count() == old(self).live_count(),
    {
        if handle.is_none() {
            return None;
        }
        let index = handle.index as usize;
        if index >= self.entries.len() {
            return None;
        }
        if self.entries[index].generation != handle.generation {
            return None;
        }
        let entry = &mut self.entries[index];
        let result = entry.value.take();
        if result.is_some() {
            let g = entry.generation;
            entry.generation = if g == u32::MAX {
                1
            } else {
                g + 1
            };
            self.free_indices.push(handle.index);
            proof {
                let f = old(self).free_indices@;
                let es0 = old(self).entries@;
                assert forall|k: int|
                    0 <= k < self.free_indices@.len() implies (#[trigger] self.free_indices@[k])
                    < self.entries@.len() && self.entries@[self.free_indices@[k] as int].value
                    is None by {
                    if k < f.len() {
                        assert(self.free_indices@[k] == f[k]);
                        assert(f[k] != handle.index);
                    } else {
                        assert(self.free_indices@[k] == handle.index);
                    }
                }
                assert forall|k1: int, k2: int|
                    0 <= k1 < k2 < self.free_indices@.len() implies #[trigger] self.free_indices@[k1]
                    != #[trigger] self.free_indices@[k2] by {
                    if k2 == f.len() {
                        assert(self.free_indices@[k1] == f[k1]);
                        assert(f[k1] != handle.index);
                    }
                }
                assert forall|j: int|
                    0 <= j < self.entries@.len() && (#[trigger] self.entries@[j]).value
                        is None implies self.free_indices@.contains(j as u32) by {
                    if j == index as int {
                        assert(self.free_indices@[f.len() as int] == handle.index);
                    } else {
                        assert(es0[j].value is None);
                        assert(f.contains(j as u32));
                        let k = choose|k: int| 0 <= k < f.len() && f[k] == j as u32;
                        assert(self.free_indices@[k] == j as u32);
                    }
                }
            }
        }
        proof {
            assert(Self::despawn_post(*old(self), *self, handle, result));
            lemma_despawn_live_count(*old(self), *self, handle, result);
        }
        result
    }

    /// Borrows the value `handle` refers to, read-only. Returns `None` for a
    /// `none`, out-of-range or stale handle, and for a handle to an emptied
    /// slot; never fails in any other way.
    pub fn borrow(&self, handle: Handle) -> (r: Option<&T>)
        ensures
            match r {
                Some(v) => self.valid(handle) && *v == self.value_at(handle),
                None => !self.valid(handle),
            },
    {
        if handle.is_none() {
            return None;
        }
        let index = handle.index as usize;
        if index >= self.entries.len() {
            return None;
        }
        let entry = &self.entries[index];
        if entry.generation != handle.generation {
            return None;
        }
        entry.value.as_ref()
    }

    /// Borrows the value `handle` refers to, for writing through the returned
    /// reference. Returns `None` for a `none`, out-of-range or stale handle;
    /// on success the slot afterwards holds whatever the caller left behind
    /// the reference, and no other slot, generation or free index changes.
    pub fn borrow_mut(&mut self, handle: Handle) -> (r: Option<&mut T>)
        requires
            old(self).wf(),
        ensures
            r is Some <==> old(self).valid(handle),
            r is Some ==> {
                &&& *r.unwrap() == old(self).value_at(handle)
                &&& final(self).wf()
                &&& final(self).valid(handle)
                &&& final(self).value_at(handle) == *final(r.unwrap())
                &&& final(self).num_slots() == old(self).num_slots()
                &&& final(self).free_list() == old(self).free_list()
                &&& final(self).slot_generation(handle.spec_index() as int)
                    == old(self).slot_generation(handle.spec_index() as int)
                &&& final(self).slot_value(handle.spec_index() as int)
                    == Some(*final(r.unwrap()))
                &&& (forall|i: int|
                    #![trigger final(self).slot_generation(i)]
                    #![trigger final(self).slot_value(i)]
                    0 <= i < old(self).num_slots() && i != handle.spec_index() as int
                        ==> final(self).slot_generation(i) == old(self).slot_generation(i)
                        && final(self).slot_value(i) == old(self).slot_value(i))
            },
            r is None ==> {
                &&& final(self).wf()
                &&& final(self).num_slots() == old(self).num_slots()
                &&& final(self).free_list() == old(self).free_list()
                &&& (forall|i: int|
                    #![trigger final(self).slot_generation(i)]
                    #![trigger final(self).slot_value(i)]
                    0 <= i < old(self).num_slots()
                        ==> final(self).slot_generation(i) == old(self).slot_generation(i)
                        && final(self).slot_value(i) == old(self).slot_value(i))
            },
    {
        if handle.is_none() {
            return None;
        }
        let index = handle.index as usize;
        if index >= self.entries.len() {
            return None;
        }
        if self.entries[index].generation != handle.generation {
            return None;
        }
        let entry = &mut self.entries[index];
        entry.value.as_mut()
    }

    /// Enumerates every occupied slot as a `(handle, reference)` pair, in
    /// physical slot order: one pair per live value, each handle valid and
    /// carrying the slot's current generation, so `borrow` on it returns the
    /// same value. The order beyond completeness of coverage is not
    /// meaningful to callers: reused slots sit wherever they happen to sit.
    pub fn iter(&self) -> (out: Vec<(Handle, &T)>)
        requires
            self.wf(),
        ensures
            out@.len() == self.live_count(),
            forall|k: int|
                0 <= k < out@.len() ==> self.valid((#[trigger] out@[k]).0) && *out@[k].1
                    == self.value_at(out@[k].0),
            forall|k1: int, k2: int|
                0 <= k1 < k2 < out@.len() ==> (#[trigger] out@[k1]).0.spec_index()
                    < (#[trigger] out@[k2]).0.spec_index(),
            forall|j: int|
                0 <= j < self.num_slots() && self.slot_value(j) is Some ==> exists|k: int|
                    0 <= k < out@.len() && (#[trigger] out@[k]).0.spec_index() == j,
    {
        let mut out: Vec<(Handle, &T)> = Vec::new();
        let n = self.entries.len();
        let mut i: usize = 0;
        while i < n
            invariant
                i <= n,
                n == self.entries@.len(),
                self.wf(),
                out@.len() == occupied_in_prefix(self.entries@, i as int),
                forall|k: int|
                    0 <= k < out@.len() ==> self.valid((#[trigger] out@[k]).0) && *out@[k].1
                        == self.value_at(out@[k].0) && out@[k].0.spec_index() < i,
                forall|k1: int, k2: int|
                    0 <= k1 < k2 < out@.len() ==> (#[trigger] out@[k1]).0.spec_index()
                        < (#[trigger] out@[k2]).0.spec_index(),
                forall|j: int|
                    0 <= j < i && self.slot_value(j) is Some ==> exists|k: int|
                        0 <= k < out@.len() && (#[trigger] out@[k]).0.spec_index() == j,
            decreases n - i,
        {
            let entry = &self.entries[i];
            match &entry.value {
                Some(v) => {
                    let h = Handle { index: i as u32, generation: entry.generation };
                    let ghost prev = out@;
                    out.push((h, v));
                    proof {
                        assert forall|j: int|
                            0 <= j < i + 1 && self.slot_value(j) is Some implies exists|k: int|
                            0 <= k < out@.len() && (#[trigger] out@[k]).0.spec_index() == j by {
                            if j == i as int {
                                assert(out@[out@.len() - 1].0.spec_index() == j);
                            } else {
                                let k = choose|k: int|
                                    0 <= k < prev.len() && (#[trigger] prev[k]).0.spec_index()
                                        == j;
                                assert(out@[k].0.spec_index() == j);
                            }
                        }
                    }
                },
                None => {},
            }
            i += 1;
        }
        out
    }

    /// Enumerates the handle of every occupied slot, in physical slot order,
    /// without borrowing into the storage: the mutable counterpart of `iter`.
    /// Each returned handle is valid, so the caller can pass it to
    /// `borrow_mut` to reach and change the value. The traversal itself
    /// changes nothing.
    pub fn iter_mut(&mut self) -> (out: Vec<Handle>)
        requires
            old(self).wf(),
        ensures
            *final(self) == *old(self),
            out@.len() == old(self).live_count(),
            forall|k: int|
                0 <= k < out@.len() ==> old(self).valid(#[trigger] out@[k]),
            forall|k1: int, k2: int|
                0 <= k1 < k2 < out@.len() ==> (#[trigger] out@[k1]).spec_index()
                    < (#[trigger] out@[k2]).spec_index(),
            forall|j: int|
                0 <= j < old(self).num_slots() && old(self).slot_value(j) is Some ==> exists|k: int|
                    0 <= k < out@.len() && (#[trigger] out@[k]).spec_index() == j,
    {
        let mut out: Vec<Handle> = Vec::new();
        let n = self.entries.len();
        let mut i: usize = 0;
        while i < n
            invariant
                i <= n,
                *self == *old(self),
                n == self.entries@.len(),
                self.wf(),
                out@.len() == occupied_in_prefix(self.entries@, i as int),
                forall|k: int|
                    0 <= k < out@.len() ==> self.valid(#[trigger] out@[k]) && out@[k].spec_index()
                        < i,
                forall|k1: int, k2: int|
                    0 <= k1 < k2 < out@.len() ==> (#[trigger] out@[k1]).spec_index()
                        < (#[trigger] out@[k2]).spec_index(),
                forall|j: int|
                    0 <= j < i && self.slot_value(j) is Some ==> exists|k: int|
                        0 <= k < out@.len() && (#[trigger] out@[k]).spec_index() == j,
            decreases n - i,
        {
            let entry = &self.entries[i];
            if entry.value.is_some() {
                let h = Handle { index: i as u32, generation: entry.generation };
                let ghost prev = out@;
                out.push(h);
                proof {
                    assert forall|j: int|
                        0 <= j < i + 1 && self.slot_value(j) is Some implies exists|k: int|
                        0 <= k < out@.len() && (#[trigger] out@[k]).spec_index() == j by {
                        if j == i as int {
                            assert(out@[out@.len() - 1].spec_index() == j);
                        } else {
                            let k = choose|k: int|
                                0 <= k < prev.len() && (#[trigger] prev[k]).spec_index() == j;
                            assert(out@[k].spec_index() == j);
                        }
                    }
                }
            }
            i += 1;
        }
        out
    }

    /// Creates an empty pool: no slots, nothing on the free stack.
    pub fn new() -> (p: Pool<T>)
        ensures
            p.wf(),
            p.num_slots() == 0,
            p.free_list().len() == 0,
            p.live_count() == 0,
    {
        Pool { entries: Vec::new(), free_indices: Vec::new() }
    }
}

proof fn lemma_occ_agree<T>(s1: Seq<Slot<T>>, s2: Seq<Slot<T>>, n: int)
    requires
        n <= s1.len(),
        n <= s2.len(),
        forall|i: int| 0 <= i < n ==> ((#[trigger] s1[i]).value is Some <==> s2[i].value is Some),
    ensures
        occupied_in_prefix(s1, n) == occupied_in_prefix(s2, n),
    decreases n,
{
    if n > 0 {
        lemma_occ_agree(s1, s2, n - 1);
    }
}

proof fn lemma_occ_change_at<T>(s1: Seq<Slot<T>>, s2: Seq<Slot<T>>, j: int, n: int)
    requires
        0 <= j < n,
        n <= s1.len(),
        n <= s2.len(),
        forall|i: int|
            0 <= i < n && i != j ==> ((#[trigger] s1[i]).value is Some <==> s2[i].value is Some),
    ensures
        s1[j].value is Some && s2[j].value is None ==> occupied_in_prefix(s2, n) + 1
            == occupied_in_prefix(s1, n),
        s1[j].value is None && s2[j].value is Some ==> occupied_in_prefix(s2, n)
            == occupied_in_prefix(s1, n) + 1,
        ((s1[j].value is Some) <==> (s2[j].value is Some)) ==> occupied_in_prefix(s2, n)
            == occupied_in_prefix(s1, n),
    decreases n,
{
    if j == n - 1 {
        lemma_occ_agree(s1, s2, n - 1);
    } else {
        lemma_occ_change_at(s1, s2, j, n - 1);
    }
}

/// Every spawn raises the number of live values by exactly one, whether it
/// reused a freed slot or appended a fresh one.
pub proof fn lemma_spawn_live_count<T>(pre: Pool<T>, post: Pool<T>, value: T, h: Handle)
    requires
        pre.wf(),
        Pool::<T>::spawn_post(pre, post, value, h),
    ensures
        post.live_count() == pre.live_count() + 1,
{
    let s1 = pre.entries@;
    let s2 = post.entries@;
    let j = h.spec_index() as int;
    if pre.free_list().len() > 0 {
        assert forall|i: int|
            0 <= i < s1.len() && i != j implies ((#[trigger] s1[i]).value is Some <==> s2[i].value
            is Some) by {
            assert(post.slot_value(i) == pre.slot_value(i));
        }
        assert(s1[j].value is None);
        assert(s2[j].value is Some);
        lemma_occ_change_at(s1, s2, j, s1.len() as int);
    } else {
        assert forall|i: int|
            0 <= i < s1.len() implies ((#[trigger] s1[i]).value is Some <==> s2[i].value
            is Some) by {
            assert(post.slot_value(i) == pre.slot_value(i));
        }
        lemma_occ_agree(s1, s2, s1.len() as int);
        assert(s2[s2.len() - 1].value is Some);
    }
}

/// A despawn that removed a value lowers the number of live values by exactly
/// one; a despawn that found nothing leaves it unchanged.
pub proof fn lemma_despawn_live_count<T>(pre: Pool<T>, post: Pool<T>, h: Handle, r: Option<T>)
    requires
        pre.wf(),
        Pool::<T>::despawn_post(pre, post, h, r),
    ensures
        r is Some ==> post.live_count() + 1 == pre.live_count(),
        r is None ==> post.live_count() == pre.live_count(),
{
    let s1 = pre.entries@;
    let s2 = post.entries@;
    if pre.valid(h) {
        let j = h.spec_index() as int;
        assert forall|i: int|
            0 <= i < s1.len() && i != j implies ((#[trigger] s1[i]).value is Some <==> s2[i].value
            is Some) by {
            assert(post.slot_value(i) == pre.slot_value(i));
        }
        lemma_occ_change_at(s1, s2, j, s1.len() as int);
    } else {
        assert forall|i: int|
            0 <= i < s1.len() implies ((#[trigger] s1[i]).value is Some <==> s2[i].value
            is Some) by {
            assert(post.slot_value(i) == pre.slot_value(i));
        }
        lemma_occ_agree(s1, s2, s1.len() as int);
    }
}

/// Two pools with the same slot count and pointwise the same occupancy hold
/// the same number of live values — in particular, writing through
/// `borrow_mut` never changes how many values are live.
pub proof fn lemma_same_occupancy_same_live_count<T>(p1: Pool<T>, p2: Pool<T>)
    requires
        p1.num_slots() == p2.num_slots(),
        forall|i: int|
            0 <= i < p1.num_slots() ==> ((#[trigger] p1.slot_value(i)) is Some <==> p2.slot_value(
                i,
            ) is Some),
    ensures
        p1.live_count() == p2.live_count(),
{
    let s1 = p1.entries@;
    let s2 = p2.entries@;
    assert forall|i: int|
        0 <= i < s1.len() implies ((#[trigger] s1[i]).value is Some <==> s2[i].value is Some) by {
        assert(p1.slot_value(i) is Some <==> p2.slot_value(i) is Some);
    }
    lemma_occ_agree(s1, s2, s1.len() as int);
}

/// Round trip: despawning the handle a spawn just returned yields back
/// exactly the value that was spawned.
pub proof fn lemma_spawn_despawn_round_trip<T>(
    p0: Pool<T>,
    p1: Pool<T>,
    p2: Pool<T>,
    value: T,
    h: Handle,
    r: Option<T>,
)
    requires
        Pool::<T>::spawn_post(p0, p1, value, h),
        Pool::<T>::despawn_post(p1, p2, h, r),
    ensures
        r == Some(value),
{
}

/// Idempotent invalidation: once a despawn has removed a value, its handle is
/// invalid in the resulting pool, so any further despawn of that handle
/// removes nothing (and `borrow`/`borrow_mut`, whose contracts tie a `Some`
/// result to validity, return `None` for it).
pub proof fn lemma_despawn_invalidates<T>(pre: Pool<T>, post: Pool<T>, h: Handle, r: Option<T>)
    requires
        Pool::<T>::despawn_post(pre, post, h, r),
        r is Some,
    ensures
        !post.valid(h),
        forall|later: Pool<T>, r2: Option<T>|
            #[trigger] Pool::<T>::despawn_post(post, later, h, r2) ==> r2 is None,
{
}

/// The distinguished `none` handle never resolves, in any pool.
pub proof fn lemma_none_never_valid<T>(p: Pool<T>)
    ensures
        !p.valid(Handle::spec_none()),
{
}

/// A despawn of an invalid handle (`none`, out of range, or stale) returns
/// `None` and leaves the slot count, every slot and the free stack unchanged.
pub proof fn lemma_despawn_miss_changes_nothing<T>(
    pre: Pool<T>,
    post: Pool<T>,
    h: Handle,
    r: Option<T>,
)
    requires
        !pre.valid(h),
        Pool::<T>::despawn_post(pre, post, h, r),
    ensures
        r is None,
        post.num_slots() == pre.num_slots(),
        post.free_list() == pre.free_list(),
        forall|i: int|
            #![trigger post.slot_generation(i)]
            #![trigger post.slot_value(i)]
            0 <= i < pre.num_slots() ==> post.slot_generation(i) == pre.slot_generation(i)
                && post.slot_value(i) == pre.slot_value(i),
{
}

/// A handle whose index lies outside the allocated slots never resolves,
/// whatever generation it carries.
pub proof fn lemma_out_of_range_never_valid<T>(p: Pool<T>, h: Handle)
    requires
        h.spec_index() >= p.num_slots(),
    ensures
        !p.valid(h),
{
}

/// LIFO reuse: when a spawn immediately follows a successful despawn, it
/// reuses the slot that despawn freed, and the new handle carries the same
/// index with the generation advanced by one. The old handle stays invalid
/// while the new one resolves to the new value. (Stated away from the
/// wraparound clamp: a slot whose generation was `u32::MAX` restarts at 1
/// instead of advancing.)
pub proof fn lemma_lifo_reuse<T>(
    p0: Pool<T>,
    p1: Pool<T>,
    p2: Pool<T>,
    h1: Handle,
    r1: Option<T>,
    value: T,
    h2: Handle,
)
    requires
        Pool::<T>::despawn_post(p0, p1, h1, r1),
        r1 is Some,
        h1.spec_generation() < u32::MAX,
        Pool::<T>::spawn_post(p1, p2, value, h2),
    ensures
        h2.spec_index() == h1.spec_index(),
        h2.spec_generation() == h1.spec_generation() + 1,
        !p2.valid(h1),
        p2.valid(h2),
        p2.value_at(h2) == value,
{
    let j = h1.spec_index() as int;
    assert(p0.valid(h1));
    assert(p1.free_list() == p0.free_list().push(h1.spec_index()));
    assert(p1.free_list().last() == h1.spec_index());
    assert(p1.slot_generation(j) == next_generation(h1.spec_generation()));
    assert(p2.slot_generation(j) == p1.slot_generation(j));
}

/// The `none` handle is exactly the reserved index `u32::MAX` paired with
/// generation 1, and the only handle with those components.
pub proof fn lemma_none_characterization(h: Handle)
    ensures
        h == Handle::spec_none() <==> (h.spec_index() == u32::MAX && h.spec_generation() == 1),
{
}

/// What validity means, over the public observers: a handle resolves iff it
/// is not `none`, its index lies within the allocated slots, the slot's
/// current generation equals the handle's, and the slot holds a value — and
/// that value is exactly `value_at`.
pub proof fn lemma_valid_characterization<T>(p: Pool<T>, h: Handle)
    ensures
        p.valid(h) <==> {
            &&& h != Handle::spec_none()
            &&& (h.spec_index() as int) < p.num_slots()
            &&& p.slot_generation(h.spec_index() as int) == h.spec_generation()
            &&& p.slot_value(h.spec_index() as int) is Some
        },
        p.valid(h) ==> p.slot_value(h.spec_index() as int) == Some(p.value_at(h)),
{
}

/// Well-formedness means exactly the arena invariant over the public
/// observers: slot count at most `u32::MAX`, every generation at least 1,
/// every free index in range and pointing at an empty slot, no index on the
/// free stack twice, and every empty slot on the free stack.
pub proof fn lemma_wf_characterization<T>(p: Pool<T>)
    ensures
        p.wf() <==> p.wf_characterized(),
{
    if p.wf() {
        assert forall|i: int| 0 <= i < p.num_slots() implies #[trigger] p.slot_generation(i)
            >= 1 by {
            assert(p.entries@[i].generation >= 1);
        }
        assert forall|k: int|
            0 <= k < p.free_list().len() implies (#[trigger] p.free_list()[k]) < p.num_slots()
            && p.slot_value(p.free_list()[k] as int) is None by {
            assert(p.free_indices@[k] < p.entries@.len());
        }
        assert forall|k1: int, k2: int|
            0 <= k1 < k2 < p.free_list().len() implies #[trigger] p.free_list()[k1]
            != #[trigger] p.free_list()[k2] by {
            assert(p.free_indices@[k1] != p.free_indices@[k2]);
        }
        assert forall|i: int|
            0 <= i < p.num_slots() && (#[trigger] p.slot_value(i)) is None implies p.free_list()
                .contains(i as u32) by {
            assert(p.entries@[i].value is None);
        }
        assert(p.wf_characterized());
    }
    if p.wf_characterized() {
        assert forall|i: int|
            0 <= i < p.entries@.len() implies (#[trigger] p.entries@[i]).generation >= 1 by {
            assert(p.slot_generation(i) >= 1);
        }
        assert forall|k: int|
            0 <= k < p.free_indices@.len() implies (#[trigger] p.free_indices@[k])
            < p.entries@.len() && p.entries@[p.free_indices@[k] as int].value is None by {
            assert(p.free_list()[k] < p.num_slots());
            assert(p.slot_value(p.free_list()[k] as int) is None);
        }
        assert forall|k1: int, k2: int|
            0 <= k1 < k2 < p.free_indices@.len() implies #[trigger] p.free_indices@[k1]
            != #[trigger] p.free_indices@[k2] by {
            assert(p.free_list()[k1] != p.free_list()[k2]);
        }
        assert forall|i: int|
            0 <= i < p.entries@.len() && (#[trigger] p.entries@[i]).value
                is None implies p.free_indices@.contains(i as u32) by {
            assert(p.slot_value(i) is None);
        }
        assert(p.wf());
    }
}

proof fn lemma_occ_matches_observers<T>(p: Pool<T>, n: int)
    ensures
        occupied_in_prefix(p.entries@, n) == p.occupied_below(n),
    decreases n,
{
    if n > 0 {
        lemma_occ_matches_observers(p, n - 1);
    }
}

/// The number of live values is exactly the number of occupied slots.
pub proof fn lemma_live_count_counts_occupied_slots<T>(p: Pool<T>)
    ensures
        p.live_count() == p.occupied_below(p.num_slots() as int),
{
    lemma_occ_matches_observers(p, p.entries@.len() as int);
}

/// A spawn disturbs no live value: every handle valid beforehand is valid
/// afterwards, resolves to the same value, and differs from the handle the
/// spawn returned.
pub proof fn lemma_spawn_preserves_valid<T>(
    pre: Pool<T>,
    post: Pool<T>,
    value: T,
    h_new: Handle,
    h: Handle,
)
    requires
        pre.wf(),
        Pool::<T>::spawn_post(pre, post, value, h_new),
        pre.valid(h),
    ensures
        post.valid(h),
        post.value_at(h) == pre.value_at(h),
        h != h_new,
{
    if pre.free_list().len() > 0 {
        // The reused slot was empty, so the valid handle points elsewhere.
        assert(pre.entries@[pre.free_indices@[pre.free_indices@.len() - 1] as int].value is None);
        assert(h.spec_index() != h_new.spec_index());
    }
    assert(post.slot_value(h.spec_index() as int) == pre.slot_value(h.spec_index() as int));
    assert(post.slot_generation(h.spec_index() as int) == pre.slot_generation(
        h.spec_index() as int,
    ));
}

proof fn lemma_sorted_same_members_equal(s1: Seq<u32>, s2: Seq<u32>)
    requires
        forall|a: int, b: int| 0 <= a < b < s1.len() ==> #[trigger] s1[a] < #[trigger] s1[b],
        forall|a: int, b: int| 0 <= a < b < s2.len() ==> #[trigger] s2[a] < #[trigger] s2[b],
        forall|x: u32|
            #![trigger s1.contains(x)]
            #![trigger s2.contains(x)]
            s1.contains(x) <==> s2.contains(x),
    ensures
        s1 == s2,
    decreases s1.len(),
{
    if s1.len() == 0 {
        if s2.len() > 0 {
            assert(s2.contains(s2[0]));
            assert(s1.contains(s2[0]));
        }
        assert(s1 =~= s2);
    } else {
        let m1 = s1.last();
        let m2 = s2.last();
        assert(s1[s1.len() - 1] == m1);
        assert(s1.contains(m1));
        assert(s2.contains(m1));
        assert(s2.len() > 0);
        assert(s2[s2.len() - 1] == m2);
        assert(s2.contains(m2));
        assert(s1.contains(m2));
        let a = choose|a: int| 0 <= a < s2.len() && s2[a] == m1;
        if a < s2.len() - 1 {
            assert(s2[a] < s2[s2.len() - 1]);
        }
        let b = choose|b: int| 0 <= b < s1.len() && s1[b] == m2;
        if b < s1.len() - 1 {
            assert(s1[b] < s1[s1.len() - 1]);
        }
        assert(m1 == m2);
        let t1 = s1.drop_last();
        let t2 = s2.drop_last();
        assert forall|x: u32| #![trigger t1.contains(x)] #![trigger t2.contains(x)]
            t1.contains(x) <==> t2.contains(x) by {
            if t1.contains(x) {
                let k = choose|k: int| 0 <= k < t1.len() && t1[k] == x;
                assert(s1[k] == x);
                assert(s1[k] < s1[s1.len() - 1]);
                assert(s1.contains(x));
                assert(s2.contains(x));
                let k2 = choose|k2: int| 0 <= k2 < s2.len() && s2[k2] == x;
                assert(k2 != s2.len() - 1);
                assert(t2[k2] == x);
                assert(t2.contains(x));
            }
            if t2.contains(x) {
                let k = choose|k: int| 0 <= k < t2.len() && t2[k] == x;
                assert(s2[k] == x);
                assert(s2[k] < s2[s2.len() - 1]);
                assert(s2.contains(x));
                assert(s1.contains(x));
                let k1 = choose|k1: int| 0 <= k1 < s1.len() && s1[k1] == x;
                assert(k1 != s1.len() - 1);
                assert(t1[k1] == x);
                assert(t1.contains(x));
            }
        }
        lemma_sorted_same_members_equal(t1, t2);
        assert(s1.len() == s2.len());
        assert forall|k: int| 0 <= k < s1.len() implies s1[k] == s2[k] by {
            if k < s1.len() - 1 {
                assert(t1[k] == t2[k]);
            }
        }
        assert(s1 =~= s2);
    }
}

/// Enumerating a pool is deterministic: any two sequences of valid handles in
/// strictly increasing index order that cover every occupied slot — the shape
/// of what `iter` and `iter_mut` return — are equal, element for element. So
/// re-running either on an unchanged pool yields the same handles, and the
/// two agree with each other.
pub proof fn lemma_enumeration_unique<T>(p: Pool<T>, s1: Seq<Handle>, s2: Seq<Handle>)
    requires
        forall|k: int| 0 <= k < s1.len() ==> p.valid(#[trigger] s1[k]),
        forall|k: int| 0 <= k < s2.len() ==> p.valid(#[trigger] s2[k]),
        forall|a: int, b: int|
            0 <= a < b < s1.len() ==> (#[trigger] s1[a]).spec_index()
                < (#[trigger] s1[b]).spec_index(),
        forall|a: int, b: int|
            0 <= a < b < s2.len() ==> (#[trigger] s2[a]).spec_index()
                < (#[trigger] s2[b]).spec_index(),
        forall|j: int|
            0 <= j < p.num_slots() && p.slot_value(j) is Some ==> exists|k: int|
                0 <= k < s1.len() && (#[trigger] s1[k]).spec_index() == j,
        forall|j: int|
            0 <= j < p.num_slots() && p.slot_value(j) is Some ==> exists|k: int|
                0 <= k < s2.len() && (#[trigger] s2[k]).spec_index() == j,
    ensures
        s1 == s2,
{
    let i1 = s1.map_values(|h: Handle| h.spec_index());
    let i2 = s2.map_values(|h: Handle| h.spec_index());
    assert forall|a: int, b: int| 0 <= a < b < i1.len() implies #[trigger] i1[a]
        < #[trigger] i1[b] by {
        assert(s1[a].spec_index() < s1[b].spec_index());
    }
    assert forall|a: int, b: int| 0 <= a < b < i2.len() implies #[trigger] i2[a]
        < #[trigger] i2[b] by {
        assert(s2[a].spec_index() < s2[b].spec_index());
    }
    assert forall|x: u32| #![trigger i1.contains(x)] #![trigger i2.contains(x)]
        i1.contains(x) <==> i2.contains(x) by {
        if i1.contains(x) {
            let k = choose|k: int| 0 <= k < i1.len() && i1[k] == x;
            assert(p.valid(s1[k]));
            assert(p.slot_value(x as int) is Some);
            let k2 = choose|k2: int| 0 <= k2 < s2.len() && (#[trigger] s2[k2]).spec_index()
                == x as int;
            assert(i2[k2] == x);
            assert(i2.contains(x));
        }
        if i2.contains(x) {
            let k = choose|k: int| 0 <= k < i2.len() && i2[k] == x;
            assert(p.valid(s2[k]));
            assert(p.slot_value(x as int) is Some);
            let k1 = choose|k1: int| 0 <= k1 < s1.len() && (#[trigger] s1[k1]).spec_index()
                == x as int;
            assert(i1[k1] == x);
            assert(i1.contains(x));
        }
    }
    lemma_sorted_same_members_equal(i1, i2);
    assert(s1.len() == s2.len());
    assert forall|k: int| 0 <= k < s1.len() implies s1[k] == s2[k] by {
        assert(i1[k] == i2[k]);
        assert(s1[k].spec_index() == s2[k].spec_index());
        assert(p.valid(s1[k]));
        assert(p.valid(s2[k]));
        assert(s1[k].generation == p.entries@[s1[k].index as int].generation);
        assert(s2[k].generation == p.entries@[s2[k].index as int].generation);
    }
    assert(s1 =~= s2);
}

/// A successful despawn advances the freed slot's generation by exactly one
/// (restarting at 1 from `u32::MAX`); together with the frame clauses of
/// `despawn_post`, no generation ever decreases outside that clamp.
pub proof fn lemma_despawn_advances_generation<T>(
    pre: Pool<T>,
    post: Pool<T>,
    h: Handle,
    r: Option<T>,
)
    requires
        Pool::<T>::despawn_post(pre, post, h, r),
        r is Some,
    ensures
        post.slot_generation(h.spec_index() as int) == next_generation(
            pre.slot_generation(h.spec_index() as int),
        ),
        pre.slot_generation(h.spec_index() as int) < u32::MAX ==> post.slot_generation(
            h.spec_index() as int,
        ) == pre.slot_generation(h.spec_index() as int) + 1,
{
}

/// The slot a spawn fills is not offered for reuse: the returned handle's
/// index does not appear on the free stack afterwards — reusing a slot pops
/// its only occurrence, and a fresh slot was never there.
pub proof fn lemma_spawn_pops_free_index<T>(pre: Pool<T>, post: Pool<T>, value: T, h: Handle)
    requires
        pre.wf(),
        Pool::<T>::spawn_post(pre, post, value, h),
    ensures
        !post.free_list().contains(h.spec_index()),
{
    if post.free_list().contains(h.spec_index()) {
        let k = choose|k: int|
            0 <= k < post.free_list().len() && post.free_list()[k] == h.spec_index();
        if pre.free_list().len() > 0 {
            // the popped index sat only on top of the stack
            assert(pre.free_indices@[k] == pre.free_indices@[pre.free_indices@.len() - 1]);
        } else {
            // a fresh slot's index lies beyond every free index
            assert(pre.free_indices@[k] < pre.entries@.len());
        }
    }
}

/// A despawn disturbs no other live value: every valid handle other than the
/// despawned one is valid afterwards and resolves to the same value.
pub proof fn lemma_despawn_preserves_other_valid<T>(
    pre: Pool<T>,
    post: Pool<T>,
    hd: Handle,
    r: Option<T>,
    h: Handle,
)
    requires
        Pool::<T>::despawn_post(pre, post, hd, r),
        pre.valid(h),
        h != hd,
    ensures
        post.valid(h),
        post.value_at(h) == pre.value_at(h),
{
    if pre.valid(hd) {
        // Two valid handles to one slot carry the slot's generation, so they
        // are the same handle; hence the slots differ.
        assert(h.spec_index() != hd.spec_index());
        assert(post.slot_value(h.spec_index() as int) == pre.slot_value(h.spec_index() as int));
        assert(post.slot_generation(h.spec_index() as int) == pre.slot_generation(
            h.spec_index() as int,
        ));
    } else {
        assert(post.slot_value(h.spec_index() as int) == pre.slot_value(h.spec_index() as int));
        assert(post.slot_generation(h.spec_index() as int) == pre.slot_generation(
            h.spec_index() as int,
        ));
    }
}

} // verus!
