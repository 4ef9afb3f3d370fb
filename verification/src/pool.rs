use vstd::prelude::*;
use core::marker::PhantomData;
use crate::text::{decimal, format_decimal};

verus! {

/// The abstract state of a pool: one slot per index ever used, each with its
/// generation and its content, and the stack of slots free for reuse.
pub struct PoolModel<T> {
    pub slots: Seq<(u32, Option<T>)>,
    pub free: Seq<usize>,
}

impl<T> PoolModel<T> {
    /// Generations start at 1, free slots are in range, empty and listed once.
    pub open spec fn wf(self) -> bool {
        &&& forall|i: int| 0 <= i < self.slots.len() ==> #[trigger] self.slots[i].0 >= 1
        &&& forall|k: int|
            0 <= k < self.free.len() ==> #[trigger] self.free[k] < self.slots.len()
                && self.slots[self.free[k] as int].1 is None
        &&& self.free.no_duplicates()
    }

    /// What a handle (index, generation) refers to, if anything.
    pub open spec fn lookup(self, h: (usize, u32)) -> Option<T> {
        if h.0 < self.slots.len() && self.slots[h.0 as int].0 == h.1 {
            self.slots[h.0 as int].1
        } else {
            None
        }
    }

    pub open spec fn valid(self, h: (usize, u32)) -> bool {
        self.lookup(h) is Some
    }

    /// The handles that refer to an item.
    pub open spec fn handles(self) -> Set<(usize, u32)> {
        Set::new(|h: (usize, u32)| self.valid(h))
    }

    /// Adding is possible without overflowing a generation or the slot count.
    pub open spec fn can_add(self) -> bool {
        if self.free.len() == 0 {
            self.slots.len() < usize::MAX
        } else {
            self.slots[self.free.last() as int].0 < u32::MAX
        }
    }

    /// `n` more items can be added, one after the other.
    pub open spec fn has_room(self, n: nat) -> bool {
        &&& self.slots.len() + n <= usize::MAX
        &&& n < u32::MAX
        &&& forall|i: int| 0 <= i < self.slots.len() ==> #[trigger] self.slots[i].0 + n <= u32::MAX
    }

    /// The pool after adding `data`, and the handle that `add` returns.
    pub open spec fn add(self, data: T) -> (PoolModel<T>, (usize, u32)) {
        if self.free.len() > 0 {
            let i = self.free.last();
            let g = (self.slots[i as int].0 + 1) as u32;
            (
                PoolModel { slots: self.slots.update(i as int, (g, Some(data))), free: self.free.drop_last() },
                (i, g),
            )
        } else {
            (
                PoolModel { slots: self.slots.push((1u32, Some(data))), free: self.free },
                (self.slots.len() as usize, 1u32),
            )
        }
    }

    /// The pool with the slot at `index` holding `v`, its generation kept.
    pub open spec fn set(self, index: usize, v: Option<T>) -> PoolModel<T> {
        PoolModel {
            slots: self.slots.update(index as int, (self.slots[index as int].0, v)),
            free: self.free,
        }
    }

    /// The pool after removing the item that a valid handle refers to.
    pub open spec fn remove(self, h: (usize, u32)) -> PoolModel<T> {
        PoolModel { slots: self.set(h.0, None).slots, free: self.free.push(h.0) }
    }

    /// The items in slot order.
    pub open spec fn items(self) -> Seq<T> {
        items_of(self.slots)
    }
}

/// The contents of the occupied slots of `s`, in slot order.
pub open spec fn items_of<T>(s: Seq<(u32, Option<T>)>) -> Seq<T>
    decreases s.len(),
{
    if s.len() == 0 {
        Seq::empty()
    } else {
        let rest = items_of(s.drop_last());
        match s.last().1 {
            Some(v) => rest.push(v),
            None => rest,
        }
    }
}

/// Every slot of `a` is in `b` with at least its generation.
pub open spec fn generations_kept<T>(a: PoolModel<T>, b: PoolModel<T>) -> bool {
    &&& a.slots.len() <= b.slots.len()
    &&& forall|i: int| 0 <= i < a.slots.len() ==> a.slots[i].0 <= #[trigger] b.slots[i].0
}

/// With room for `n + 1` items, one can be added, and then there is room
/// for `n` more.
pub proof fn lemma_room_add<T>(m: PoolModel<T>, data: T, n: nat)
    requires
        m.wf(),
        m.has_room(n + 1),
    ensures
        m.can_add(),
        m.add(data).0.has_room(n),
{
    if m.free.len() > 0 {
        let i = m.free.last();
        assert(m.free[m.free.len() - 1] < m.slots.len());
        assert(m.slots[i as int].0 + n + 1 <= u32::MAX);
        let m2 = m.add(data).0;
        let g = (m.slots[i as int].0 + 1) as u32;
        assert(m2.slots == m.slots.update(i as int, (g, Some(data))));
        assert forall|k: int| 0 <= k < m2.slots.len() implies #[trigger] m2.slots[k].0 + n <= u32::MAX by {
            assert(m.slots[k].0 + n + 1 <= u32::MAX);
            if k == i {
                assert(m2.slots[k].0 == g);
            } else {
                assert(m2.slots[k] == m.slots[k]);
            }
        }
    } else {
        let m2 = m.add(data).0;
        assert forall|k: int| 0 <= k < m2.slots.len() implies #[trigger] m2.slots[k].0 + n <= u32::MAX by {
            if k < m.slots.len() {
                assert(m.slots[k].0 + n + 1 <= u32::MAX);
            }
        }
    }
}

/// `add` returns a handle that was not valid, and leaves what every other
/// handle refers to as it was.
pub proof fn lemma_add_fresh<T>(m: PoolModel<T>, data: T)
    requires
        m.wf(),
        m.can_add(),
    ensures
        !m.valid(m.add(data).1),
        m.add(data).0.lookup(m.add(data).1) == Some(data),
        forall|g: (usize, u32)| g != m.add(data).1 ==> #[trigger] m.add(data).0.lookup(g) == m.lookup(g),
{
    if m.free.len() > 0 {
        let i = m.free.last();
        assert(m.free[m.free.len() - 1] < m.slots.len());
    }
}

/// Room for `n` items is room for fewer.
pub proof fn lemma_room_less<T>(m: PoolModel<T>, n: nat, k: nat)
    requires
        m.has_room(n),
        k <= n,
    ensures
        m.has_room(k),
{
    assert forall|i: int| 0 <= i < m.slots.len() implies #[trigger] m.slots[i].0 + k <= u32::MAX by {
        assert(m.slots[i].0 + n <= u32::MAX);
    }
}

/// Adding keeps a pool well formed.
pub proof fn lemma_add_wf<T>(m: PoolModel<T>, data: T)
    requires
        m.wf(),
        m.can_add(),
    ensures
        m.add(data).0.wf(),
{
    let m2 = m.add(data).0;
    if m.free.len() > 0 {
        let i = m.free.last();
        assert forall|k: int| 0 <= k < m2.free.len() implies #[trigger] m2.free[k] < m2.slots.len()
            && m2.slots[m2.free[k] as int].1 is None by {
            assert(m2.free[k] == m.free[k]);
            assert(m.free[k] != i);
        }
    }
}

/// Taking out, writing or putting back an item through a slot that is not
/// free keeps a pool well formed.
pub proof fn lemma_set_wf<T>(m: PoolModel<T>, index: usize)
    requires
        m.wf(),
        index < m.slots.len(),
        !m.free.contains(index),
    ensures
        forall|v: Option<T>| #[trigger] m.set(index, v).wf(),
{
    assert forall|v: Option<T>| #[trigger] m.set(index, v).wf() by {
        let m2 = m.set(index, v);
        assert forall|k: int| 0 <= k < m2.free.len() implies #[trigger] m2.free[k] < m2.slots.len()
            && m2.slots[m2.free[k] as int].1 is None by {
            assert(m.free[k] != index);
        }
    }
}

/// A valid handle names a slot that is not free.
pub proof fn lemma_valid_not_free<T>(m: PoolModel<T>, h: (usize, u32))
    requires
        m.wf(),
        m.valid(h),
    ensures
        !m.free.contains(h.0),
{
    if m.free.contains(h.0) {
        let k = m.free.index_of(h.0);
        assert(m.free[k] == h.0);
    }
}

/// Removing an item keeps a pool well formed.
pub proof fn lemma_remove_wf<T>(m: PoolModel<T>, h: (usize, u32))
    requires
        m.wf(),
        m.valid(h),
    ensures
        m.remove(h).wf(),
{
    lemma_valid_not_free(m, h);
    lemma_set_wf(m, h.0);
    let m2 = m.remove(h);
    assert forall|k: int| 0 <= k < m2.free.len() implies #[trigger] m2.free[k] < m2.slots.len()
        && m2.slots[m2.free[k] as int].1 is None by {
        if k < m.free.len() {
            assert(m2.free[k] == m.free[k]);
            assert(m.free[k] != h.0);
        }
    }
    assert(m2.free.no_duplicates()) by {
        assert forall|a: int, b: int| 0 <= a < m2.free.len() && 0 <= b < m2.free.len() && a != b
            implies m2.free[a] != m2.free[b] by {
            if a < m.free.len() && b < m.free.len() {
            } else if a < m.free.len() {
                assert(m.free.contains(m.free[a]));
            } else {
                assert(m.free.contains(m.free[b]));
            }
        }
    }
}

/// Read after write: an added item is found under the handle that `add`
/// returned.
pub proof fn lemma_lookup_after_add<T>(m: PoolModel<T>, data: T)
    requires
        m.wf(),
        m.can_add(),
    ensures
        m.add(data).0.lookup(m.add(data).1) == Some(data),
{
}

/// Adding leaves every item that a valid handle refers to in place, and
/// returns a handle that differs from all of them.
pub proof fn lemma_add_keeps_others<T>(m: PoolModel<T>, data: T, h: (usize, u32))
    requires
        m.wf(),
        m.can_add(),
        m.valid(h),
    ensures
        m.add(data).0.lookup(h) == m.lookup(h),
        m.add(data).1 != h,
{
    if m.free.len() > 0 {
        let i = m.free.last();
        assert(m.free[m.free.len() - 1] == i);
        assert(i != h.0);
    }
}

/// A write through a valid handle changes that item and no other.
pub proof fn lemma_write_keeps_others<T>(m: PoolModel<T>, h: (usize, u32), g: (usize, u32), v: T)
    requires
        m.valid(h),
        m.valid(g),
        g != h,
    ensures
        m.set(h.0, Some(v)).lookup(h) == Some(v),
        m.set(h.0, Some(v)).lookup(g) == m.lookup(g),
{
}

/// Taking an item out and putting it back with its ticket restores the pool
/// and gives back the same handle.
pub proof fn lemma_take_put_back<T>(m: PoolModel<T>, h: (usize, u32))
    requires
        m.wf(),
        m.valid(h),
    ensures
        m.set(h.0, None).slots[h.0 as int].1 is None,
        !m.set(h.0, None).free.contains(h.0),
        m.set(h.0, None).set(h.0, m.lookup(h)) == m,
        (h.0, m.set(h.0, None).slots[h.0 as int].0) == h,
{
    lemma_valid_not_free(m, h);
    assert(m.set(h.0, None).set(h.0, m.lookup(h)).slots =~= m.slots);
}

/// Once an item is removed its handle never becomes valid again: not right
/// away, and not after the slot is reused by `add`.
pub proof fn lemma_removed_handle_stays_invalid<T>(m: PoolModel<T>, h: (usize, u32), data: T)
    requires
        m.wf(),
        m.valid(h),
    ensures
        !m.remove(h).valid(h),
        m.remove(h).can_add() ==> !m.remove(h).add(data).0.valid(h) && m.remove(h).add(data).1
            != h,
{
}

/// The generations of the slots of a pool.
pub open spec fn gens<T>(p: PoolModel<T>) -> Seq<u32> {
    p.slots.map_values(|s: (u32, Option<T>)| s.0)
}

/// The handles that `k` adds, one after the other, give to a pool whose
/// slots have the generations `g` and whose free list is `f`, with the
/// generations and the free list after them. An add takes the last free
/// slot and raises its generation by one, or, with no free slot, appends a
/// slot of generation 1.
pub open spec fn adds_from(g: Seq<u32>, f: Seq<usize>, k: nat) -> (Seq<(usize, u32)>, Seq<u32>, Seq<usize>)
    decreases k,
{
    if k == 0 {
        (Seq::empty(), g, f)
    } else {
        let (hs, g1, f1) = adds_from(g, f, (k - 1) as nat);
        if f1.len() > 0 {
            let i = f1.last();
            let gi = (g1[i as int] + 1) as u32;
            (hs.push((i, gi)), g1.update(i as int, gi), f1.drop_last())
        } else {
            (hs.push((g1.len() as usize, 1u32)), g1.push(1u32), f1)
        }
    }
}

/// The handles that `k` adds give to the pool `p`, in order.
pub open spec fn added_handles<T>(p: PoolModel<T>, k: nat) -> Seq<(usize, u32)> {
    adds_from(gens(p), p.free, k).0
}

/// One more add continues the handles, generations and free list of
/// `adds_from`; changing an item keeps the generations and the free list.
pub proof fn lemma_adds_step<T>(p0: PoolModel<T>, p: PoolModel<T>, k: nat, data: T)
    requires
        p.wf(),
        gens(p) == adds_from(gens(p0), p0.free, k).1,
        p.free == adds_from(gens(p0), p0.free, k).2,
    ensures
        adds_from(gens(p0), p0.free, k + 1) == (adds_from(gens(p0), p0.free, k).0.push(p.add(data).1),
            gens(p.add(data).0), p.add(data).0.free),
{
    let (hs, g1, f1) = adds_from(gens(p0), p0.free, k);
    assert(adds_from(gens(p0), p0.free, k + 1) == (if f1.len() > 0 {
        (hs.push((f1.last(), (g1[f1.last() as int] + 1) as u32)), g1.update(f1.last() as int, (g1[f1.last() as int] + 1) as u32), f1.drop_last())
    } else {
        (hs.push((g1.len() as usize, 1u32)), g1.push(1u32), f1)
    }));
    if p.free.len() > 0 {
        let i = p.free.last();
        assert(i < p.slots.len());
        assert(gens(p.add(data).0) =~= g1.update(i as int, (g1[i as int] + 1) as u32));
    } else {
        assert(gens(p.add(data).0) =~= g1.push(1u32));
    }
}

/// Putting an item into a slot keeps the generations and the free list.
pub proof fn lemma_set_keeps_gens<T>(p: PoolModel<T>, index: usize, v: Option<T>)
    requires
        index < p.slots.len(),
    ensures
        gens(p.set(index, v)) == gens(p),
        p.set(index, v).free == p.free,
{
    assert(gens(p.set(index, v)) =~= gens(p));
}

/// The number of slots never goes down: adding grows it by one where no
/// slot is free and keeps it otherwise, and taking, putting back and
/// removing keep it.
pub proof fn lemma_slot_count_never_shrinks<T>(m: PoolModel<T>, data: T, h: (usize, u32), index: usize, v: Option<T>)
    requires
        m.wf(),
        index < m.slots.len(),
        h.0 < m.slots.len(),
    ensures
        m.add(data).0.slots.len() == m.slots.len() + (if m.free.len() == 0 {
            1int
        } else {
            0int
        }),
        m.set(index, v).slots.len() == m.slots.len(),
        m.remove(h).slots.len() == m.slots.len(),
{
}

/// No operation lowers a generation or drops a slot, so a handle whose
/// generation is below that of its slot stays invalid for good.
pub proof fn lemma_generations_never_decrease<T>(m: PoolModel<T>, data: T, h: (usize, u32), v: Option<T>)
    requires
        m.wf(),
        h.0 < m.slots.len(),
    ensures
        m.can_add() ==> generations_kept(m, m.add(data).0),
        generations_kept(m, m.set(h.0, v)),
        generations_kept(m, m.remove(h)),
        h.1 < m.slots[h.0 as int].0 ==> !m.valid(h),
{
}

/// Why two items could not be borrowed together: a handle named no item,
/// or, where `overlapping` holds, both handles named the same slot.
pub struct PoolGetManyMutError {
    pub overlapping: bool,
}

/// A generational arena. Items keep their index while they are stored, and
/// a handle names an index together with the generation of the slot when
/// the item was added, so that a handle to a removed item does not reach a
/// later item in the same slot.
pub struct Pool<T> {
    data_vec: Vec<PoolEntry<T>>,
    // The indices of the freed entries.
    free_stack: Vec<usize>,
}

struct PoolEntry<T> {
    generation: u32,
    data: Option<T>,
}

pub struct Handle<T> {
    index: usize,
    generation: u32,
    phantom_type: PhantomData<T>,
}

/// Proof that a slot was emptied by `take`; it gives the slot back.
pub struct Ticket<T> {
    index: usize,
    phantom_type: PhantomData<T>,
}

impl<T> View for Handle<T> {
    type V = (usize, u32);

    closed spec fn view(&self) -> (usize, u32) {
        (self.index, self.generation)
    }
}

impl<T> View for Ticket<T> {
    type V = usize;

    closed spec fn view(&self) -> usize {
        self.index
    }
}

/// A handle is fixed by its view.
pub proof fn lemma_handle_view_eq<T>(a: Handle<T>, b: Handle<T>)
    requires
        a@ == b@,
    ensures
        a == b,
{
}

/// A handle as debugging output shows it: its index and generation.
pub open spec fn handle_text(index: nat, generation: nat) -> Seq<char> {
    "Handle { index: "@ + decimal(index) + ", generation: "@ + decimal(generation) + " }"@
}

/// A handle's index and generation in the form of a struct's debugging
/// output.
fn format_handle(index: usize, generation: u32) -> (s: String)
    ensures
        s@ == handle_text(index as nat, generation as nat),
{
    let i = format_decimal(index as u64);
    let g = format_decimal(generation as u64);
    String::from_str("Handle { index: ").concat(i.as_str()).concat(", generation: ").concat(g.as_str()).concat(" }")
}

impl<T> Handle<T> {
    /// The handle as debugging output shows it.
    pub fn to_debug_string(&self) -> (s: String)
        ensures
            s@ == handle_text(self@.0 as nat, self@.1 as nat),
    {
        format_handle(self.index, self.generation)
    }
}

impl<T> Clone for Handle<T> {
    fn clone(&self) -> (r: Self)
        ensures
            r@ == self@,
    {
        Handle { index: self.index, generation: self.generation, phantom_type: PhantomData }
    }
}

impl<T> Copy for Handle<T> {

}

impl<T> PartialEq for Handle<T> {
    fn eq(&self, other: &Self) -> (r: bool) {
        self.index == other.index && self.generation == other.generation
    }
}

impl<T> vstd::std_specs::cmp::PartialEqSpecImpl for Handle<T> {
    open spec fn obeys_eq_spec() -> bool {
        true
    }

    open spec fn eq_spec(&self, other: &Self) -> bool {
        self@ == other@
    }
}

impl<T> Eq for Handle<T> {

}

spec fn slots_of<T>(v: Seq<PoolEntry<T>>) -> Seq<(u32, Option<T>)> {
    v.map_values(|e: PoolEntry<T>| (e.generation, e.data))
}

broadcast proof fn lemma_slots_of_update<T>(v: Seq<PoolEntry<T>>, i: int, e: PoolEntry<T>)
    requires
        0 <= i < v.len(),
    ensures
        #[trigger] slots_of(v.update(i, e)) == slots_of(v).update(i, (e.generation, e.data)),
{
    assert(slots_of(v.update(i, e)) =~= slots_of(v).update(i, (e.generation, e.data)));
}

broadcast proof fn lemma_slots_of_push<T>(v: Seq<PoolEntry<T>>, e: PoolEntry<T>)
    ensures
        #[trigger] slots_of(v.push(e)) == slots_of(v).push((e.generation, e.data)),
{
    assert(slots_of(v.push(e)) =~= slots_of(v).push((e.generation, e.data)));
}

broadcast proof fn lemma_update_same<A>(s: Seq<A>, i: int, x: A)
    requires
        0 <= i < s.len(),
        x == s[i],
    ensures
        #[trigger] s.update(i, x) == s,
{
    assert(s.update(i, x) =~= s);
}

broadcast group group_slots {
    lemma_update_same,
    lemma_slots_of_update,
    lemma_slots_of_push,
}

impl<T> View for Pool<T> {
    type V = PoolModel<T>;

    closed spec fn view(&self) -> PoolModel<T> {
        PoolModel {
            slots: slots_of(self.data_vec@),
            free: self.free_stack@,
        }
    }
}

impl<T> Pool<T> {
    pub fn new() -> (p: Self)
        ensures
            p@.slots.len() == 0,
            p@.free.len() == 0,
            p@.wf(),
    {
        Pool { data_vec: Vec::new(), free_stack: Vec::new() }
    }

    /// A pool has at most as many slots as a `usize` counts.
    pub proof fn lemma_slots_bound(&self)
        ensures
            self@.slots.len() <= usize::MAX,
    {
        assert(self.data_vec.len() == self.data_vec@.len());
    }

    /// The number of slots ever used, occupied or not.
    pub fn vec_len(&self) -> (n: usize)
        ensures
            n == self@.slots.len(),
    {
        self.data_vec.len()
    }

    pub fn try_borrow(&self, handle: Handle<T>) -> (r: Option<&T>)
        ensures
            match self@.lookup(handle@) {
                Some(v) => r is Some && *r->0 == v,
                None => r is None,
            },
    {
        if handle.index < self.data_vec.len() {
            let entry = &self.data_vec[handle.index];
            if entry.generation == handle.generation {
                entry.data.as_ref()
            } else {
                None
            }
        } else {
            None
        }
    }

    pub fn borrow(&self, handle: Handle<T>) -> (r: &T)
        requires
            self@.valid(handle@),
        ensures
            Some(*r) == self@.lookup(handle@),
    {
        let entry = &self.data_vec[handle.index];
        entry.data.as_ref().unwrap()
    }

    pub fn try_borrow_mut(&mut self, handle: Handle<T>) -> (r: Option<&mut T>)
        ensures
            match old(self)@.lookup(handle@) {
                Some(v) => r is Some && *r->0 == v
                    && final(self)@ == old(self)@.set(handle@.0, Some(*final(r->0))),
                None => r is None && final(self)@ == old(self)@,
            },
            old(self)@.wf() ==> final(self)@.wf(),
    {
        proof {
            if old(self)@.wf() && old(self)@.valid(handle@) {
                lemma_valid_not_free(old(self)@, handle@);
                lemma_set_wf(old(self)@, handle@.0);
            }
        }
        broadcast use group_slots;

        if handle.index < self.data_vec.len() {
            let entry = &mut self.data_vec[handle.index];
            if entry.generation == handle.generation {
                entry.data.as_mut()
            } else {
                None
            }
        } else {
            None
        }
    }

    pub fn borrow_mut(&mut self, handle: Handle<T>) -> (r: &mut T)
        requires
            old(self)@.valid(handle@),
        ensures
            Some(*r) == old(self)@.lookup(handle@),
            final(self)@ == old(self)@.set(handle@.0, Some(*final(r))),
            old(self)@.wf() ==> final(self)@.wf(),
    {
        proof {
            if old(self)@.wf() && old(self)@.valid(handle@) {
                lemma_valid_not_free(old(self)@, handle@);
                lemma_set_wf(old(self)@, handle@.0);
            }
        }
        broadcast use group_slots;

        let entry = &mut self.data_vec[handle.index];
        entry.data.as_mut().unwrap()
    }

    /// Whether `n` more items can be added one after the other.
    pub fn has_room_for(&self, n: usize) -> (b: bool)
        ensures
            b == self@.has_room(n as nat),
    {
        broadcast use group_slots;

        let len = self.data_vec.len();
        if n >= u32::MAX as usize || len > usize::MAX - n {
            return false;
        }
        let mut i: usize = 0;
        while i < len
            invariant
                len == self.data_vec@.len(),
                len == self@.slots.len(),
                n < u32::MAX,
                i <= len,
                forall|j: int| 0 <= j < i ==> #[trigger] self@.slots[j].0 + n <= u32::MAX,
            decreases len - i,
        {
            assert(self@.slots[i as int].0 == self.data_vec@[i as int].generation);
            if self.data_vec[i].generation as u64 + n as u64 > u32::MAX as u64 {
                return false;
            }
            i = i + 1;
        }
        true
    }

    pub fn check_handle_valid(&self, handle: Handle<T>) -> (b: bool)
        ensures
            b == self@.valid(handle@),
    {
        if handle.index < self.data_vec.len() {
            let entry = &self.data_vec[handle.index];
            entry.generation == handle.generation && entry.data.is_some()
        } else {
            false
        }
    }

    pub fn try_take(&mut self, handle: Handle<T>) -> (r: Option<(Ticket<T>, T)>)
        ensures
            match old(self)@.lookup(handle@) {
                Some(v) => r matches Some((t, x)) && x == v && t@ == handle@.0
                    && final(self)@ == old(self)@.set(handle@.0, None),
                None => r is None && final(self)@ == old(self)@,
            },
            old(self)@.wf() ==> final(self)@.wf(),
    {
        proof {
            if old(self)@.wf() && old(self)@.valid(handle@) {
                lemma_valid_not_free(old(self)@, handle@);
                lemma_set_wf(old(self)@, handle@.0);
            }
        }
        broadcast use group_slots;

        if handle.index < self.data_vec.len() {
            let entry = &mut self.data_vec[handle.index];
            if entry.generation == handle.generation {
                match entry.data.take() {
                    Some(taken_data) => Some(
                        (Ticket { index: handle.index, phantom_type: PhantomData }, taken_data),
                    ),
                    None => None,
                }
            } else {
                None
            }
        } else {
            None
        }
    }

    pub fn take(&mut self, handle: Handle<T>) -> (r: (Ticket<T>, T))
        requires
            old(self)@.valid(handle@),
        ensures
            Some(r.1) == old(self)@.lookup(handle@),
            r.0@ == handle@.0,
            final(self)@ == old(self)@.set(handle@.0, None),
            old(self)@.wf() ==> final(self)@.wf(),
    {
        proof {
            if old(self)@.wf() && old(self)@.valid(handle@) {
                lemma_valid_not_free(old(self)@, handle@);
                lemma_set_wf(old(self)@, handle@.0);
            }
        }
        self.try_take(handle).unwrap()
    }

    pub fn put_back(&mut self, ticket: Ticket<T>, value: T) -> (h: Handle<T>)
        requires
            ticket@ < old(self)@.slots.len(),
            old(self)@.slots[ticket@ as int].1 is None,
            !old(self)@.free.contains(ticket@),
        ensures
            final(self)@ == old(self)@.set(ticket@, Some(value)),
            h@ == (ticket@, old(self)@.slots[ticket@ as int].0),
            old(self)@.wf() ==> final(self)@.wf(),
    {
        proof {
            if old(self)@.wf() {
                lemma_set_wf(old(self)@, ticket@);
            }
        }
        broadcast use group_slots;

        let record = &mut self.data_vec[ticket.index];
        let generation = record.generation;
        record.data = Some(value);
        Handle { index: ticket.index, generation, phantom_type: PhantomData }
    }

    pub fn handle_from_index(&self, index: usize) -> (h: Handle<T>)
        requires
            index < self@.slots.len(),
        ensures
            h@ == (index, self@.slots[index as int].0),
    {
        Handle {
            index,
            generation: self.data_vec[index].generation,
            phantom_type: PhantomData,
        }
    }

    pub fn add(&mut self, data: T) -> (h: Handle<T>)
        requires
            old(self)@.wf(),
            old(self)@.can_add(),
        ensures
            (final(self)@, h@) == old(self)@.add(data),
            final(self)@.wf(),
    {
        proof {
            lemma_add_wf(old(self)@, data);
        }
        broadcast use group_slots;

        if let Some(index) = self.free_stack.pop() {
            let entry = &mut self.data_vec[index];
            entry.generation = entry.generation + 1;
            entry.data = Some(data);
            Handle { index, generation: entry.generation, phantom_type: PhantomData }
        } else {
            let new_generation: u32 = 1;
            self.data_vec.push(PoolEntry { generation: new_generation, data: Some(data) });
            Handle {
                index: self.data_vec.len() - 1,
                generation: new_generation,
                phantom_type: PhantomData,
            }
        }
    }

    /// Removes the item that the handle refers to and frees its slot.
    /// Borrows the items of two handles mutably at once: an error where a
    /// handle names no item, or, with `overlapping`, where both name the
    /// same slot.
    pub fn try_borrow_many_mut(&mut self, a: Handle<T>, b: Handle<T>) -> (r: Result<(&mut T, &mut T), PoolGetManyMutError>)
        ensures
            match r {
                Ok((x, y)) => old(self)@.valid(a@) && old(self)@.valid(b@) && a@.0 != b@.0
                    && Some(*x) == old(self)@.lookup(a@) && Some(*y) == old(self)@.lookup(b@)
                    && final(self)@ == old(self)@.set(a@.0, Some(*final(x))).set(b@.0, Some(*final(y))),
                Err(e) => !(old(self)@.valid(a@) && old(self)@.valid(b@) && a@.0 != b@.0)
                    && e.overlapping == (old(self)@.valid(a@) && old(self)@.valid(b@))
                    && final(self)@ == old(self)@,
            },
    {
        broadcast use group_slots;

        if !self.check_handle_valid(a) || !self.check_handle_valid(b) {
            return Err(PoolGetManyMutError { overlapping: false });
        }
        if a.index == b.index {
            return Err(PoolGetManyMutError { overlapping: true });
        }
        let ghost v0 = self.data_vec@;
        let slice = self.data_vec.as_mut_slice();
        if a.index < b.index {
            let (lo, hi) = slice.split_at_mut(b.index);
            let ea = &mut lo[a.index];
            let eb = &mut hi[0];
            let x = ea.data.as_mut().unwrap();
            let y = eb.data.as_mut().unwrap();
            proof {
                assert(after_borrow(*ea).generation == v0[a.index as int].generation);
                assert(after_borrow(self.data_vec)@ =~= v0.update(a.index as int, after_borrow(*ea)).update(b.index as int, after_borrow(*eb)));
            }
            Ok((x, y))
        } else {
            let (lo, hi) = slice.split_at_mut(a.index);
            let eb = &mut lo[b.index];
            let ea = &mut hi[0];
            let x = ea.data.as_mut().unwrap();
            let y = eb.data.as_mut().unwrap();
            proof {
                assert(after_borrow(self.data_vec)@ =~= v0.update(a.index as int, after_borrow(*ea)).update(b.index as int, after_borrow(*eb)));
            }
            Ok((x, y))
        }
    }

    /// Borrows the items of two valid handles to different slots mutably at
    /// once.
    pub fn borrow_many_mut(&mut self, a: Handle<T>, b: Handle<T>) -> (r: (&mut T, &mut T))
        requires
            old(self)@.valid(a@),
            old(self)@.valid(b@),
            a@.0 != b@.0,
        ensures
            Some(*r.0) == old(self)@.lookup(a@),
            Some(*r.1) == old(self)@.lookup(b@),
            final(self)@ == old(self)@.set(a@.0, Some(*final(r.0))).set(b@.0, Some(*final(r.1))),
    {
        match self.try_borrow_many_mut(a, b) {
            Ok(pair) => pair,
            Err(_) => vstd::pervasive::unreached(),
        }
    }

    pub fn try_remove(&mut self, handle: Handle<T>) -> (r: Option<T>)
        requires
            old(self)@.wf(),
        ensures
            r == old(self)@.lookup(handle@),
            final(self)@ == (if r is Some {
                old(self)@.remove(handle@)
            } else {
                old(self)@
            }),
            final(self)@.wf(),
    {
        proof {
            if old(self)@.valid(handle@) {
                lemma_remove_wf(old(self)@, handle@);
            }
        }
        broadcast use group_slots;

        if handle.index < self.data_vec.len() {
            let entry = &mut self.data_vec[handle.index];
            if entry.generation == handle.generation {
                let taken = entry.data.take();
                if taken.is_some() {
                    self.free_stack.push(handle.index);
                }
                taken
            } else {
                None
            }
        } else {
            None
        }
    }

    /// References to the stored items, in slot order.
    pub fn iter(&self) -> (r: Vec<&T>)
        ensures
            r@.len() == self@.items().len(),
            forall|k: int| 0 <= k < r@.len() ==> *#[trigger] r@[k] == self@.items()[k],
    {
        let ghost slots = self@.slots;
        let mut r: Vec<&T> = Vec::new();
        let mut i: usize = 0;
        while i < self.data_vec.len()
            invariant
                slots == self@.slots,
                i <= slots.len(),
                r@.len() == items_of(slots.take(i as int)).len(),
                forall|k: int|
                    0 <= k < r@.len() ==> *#[trigger] r@[k] == items_of(slots.take(i as int))[k],
            decreases self.data_vec.len() - i,
        {
            assert(slots.take(i + 1).drop_last() =~= slots.take(i as int));
            assert(slots[i as int] == (self.data_vec@[i as int].generation, self.data_vec@[i as int].data));
            if let Some(d) = self.data_vec[i].data.as_ref() {
                r.push(d);
            }
            i = i + 1;
        }
        assert(slots.take(i as int) =~= slots);
        r
    }
}

} // verus!
