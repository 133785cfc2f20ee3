//! A simple object arena.
//!
//! `Arena<T>` stores objects in an array of slots and allows you to:
//!
//! * Insert an object (reuse an existing vacant slot, or append to the end).
//! * Remove the object at a specified index.
//! * Access the object at a specified index.
//!
//! Vacant slots are linked together into a singly linked free list, so both
//! insertion and removal run in `O(1)` (insertion amortized over occasional
//! reallocation).
//!
//! The companion [`bitmap`] module provides `Bitmap`, a standalone occupancy
//! tracker with block-level bookkeeping, used to drive index-based data
//! structures that keep their element storage elsewhere.

pub mod bitmap;

use vstd::prelude::*;

verus! {

/// Marks the absence of a slot index: the end of the vacant-slot list.
const SENTINEL: usize = usize::MAX;

/// A slot, which is either vacant or occupied.
///
/// A vacant slot stores the index of the next vacant slot on the free list,
/// or `SENTINEL` at the end of the list.
enum Slot<T> {
    /// Vacant slot, holding the index of the next slot on the free list.
    Vacant(usize),
    /// Occupied slot, holding a value.
    Occupied(T),
}

/// What one slot holds, abstractly: a value, or nothing.
spec fn slot_view<T>(s: Slot<T>) -> Option<T> {
    match s {
        Slot::Vacant(_) => None,
        Slot::Occupied(v) => Some(v),
    }
}

/// Number of occupied entries in an abstract slot sequence.
pub open spec fn count_some<T>(s: Seq<Option<T>>) -> nat
    decreases s.len(),
{
    if s.len() == 0 {
        0
    } else {
        count_some(s.drop_last()) + if s.last() is Some {
            1nat
        } else {
            0nat
        }
    }
}

/// The slot sequence after inserting `v` at index `i`: an in-place update
/// for an existing slot, or an appended slot at the end.
pub open spec fn inserted_at<T>(s: Seq<Option<T>>, i: int, v: T) -> Seq<Option<T>> {
    if i == s.len() {
        s.push(Some(v))
    } else {
        s.update(i, Some(v))
    }
}

/// `count_some` never exceeds the sequence length.
pub proof fn lemma_count_some_le_len<T>(s: Seq<Option<T>>)
    ensures
        count_some(s) <= s.len(),
    decreases s.len(),
{
    if s.len() > 0 {
        lemma_count_some_le_len(s.drop_last());
    }
}

/// A `Some` entry keeps `count_some` above zero.
pub proof fn lemma_count_some_ge_one<T>(s: Seq<Option<T>>, i: int)
    requires
        0 <= i < s.len(),
        s[i] is Some,
    ensures
        count_some(s) >= 1,
    decreases s.len(),
{
    if i < s.len() - 1 {
        lemma_count_some_ge_one(s.drop_last(), i);
    }
}

/// Updating one entry changes `count_some` by exactly the difference
/// between the new and the old entry.
pub proof fn lemma_count_some_update<T>(s: Seq<Option<T>>, i: int, v: Option<T>)
    requires
        0 <= i < s.len(),
    ensures
        count_some(s.update(i, v)) == count_some(s) - (if s[i] is Some {
            1int
        } else {
            0int
        }) + (if v is Some {
            1int
        } else {
            0int
        }),
    decreases s.len(),
{
    let s2 = s.update(i, v);
    if i == s.len() - 1 {
        assert(s2.drop_last() =~= s.drop_last());
    } else {
        assert(s2.drop_last() =~= s.drop_last().update(i, v));
        lemma_count_some_update(s.drop_last(), i, v);
    }
}

/// Appending one entry adds its own count.
pub proof fn lemma_count_some_push<T>(s: Seq<Option<T>>, v: Option<T>)
    ensures
        count_some(s.push(v)) == count_some(s) + (if v is Some {
            1int
        } else {
            0int
        }),
{
    assert(s.push(v).drop_last() =~= s);
}

/// Law: iteration yields exactly the occupied indices, in strictly
/// ascending order. An iterator at cursor `c` yields the least occupied
/// index `j` at or above `c`; so every occupied index at or above `c` is
/// either `j` itself or still ahead of the advanced cursor `j + 1`, and no
/// occupied index is ever skipped or repeated.
pub proof fn lemma_iteration_order<T>(s: Seq<Option<T>>, c: int, j: int, k: int)
    requires
        0 <= c <= j < s.len(),
        s[j] is Some,
        forall|m: int| c <= m < j ==> s[m] is None,
        c <= k < s.len(),
        s[k] is Some,
    ensures
        j <= k,
        k != j ==> j + 1 <= k,
{
}

/// Law: for every arena contents `s`, index `i` and object `v`, removing
/// the slot that inserting `v` filled hands back exactly `v`, leaves that
/// slot vacant, and restores the previous contents (with the one appended
/// slot still present, vacant, when the insertion had grown the arena).
///
/// `insert` ensures that its result `i` and the new contents satisfy
/// `inserted_at(s, i, v)`, with `i` a vacant slot or the first new index;
/// `remove(i)` then returns the contents at `i` and blanks it.
pub proof fn lemma_insert_remove_round_trip<T>(s: Seq<Option<T>>, i: int, v: T)
    requires
        0 <= i <= s.len(),
        i < s.len() ==> s[i] is None,
    ensures
        inserted_at(s, i, v)[i] == Some(v),
        inserted_at(s, i, v).update(i, None)[i] is None,
        i < s.len() ==> inserted_at(s, i, v).update(i, None) == s,
        i == s.len() ==> inserted_at(s, i, v).update(i, None) == s.push(None),
{
    if i < s.len() {
        assert(inserted_at(s, i, v).update(i, None) =~= s);
    } else {
        assert(inserted_at(s, i, v).update(i, None) =~= s.push(None));
    }
}

/// Overwriting the object of an occupied slot, whatever the new value,
/// preserves the arena invariant and updates the abstract contents at
/// exactly that index.
proof fn lemma_value_update_keeps_wf<T>(
    slots: Seq<Slot<T>>,
    head: usize,
    f: Seq<usize>,
    len: int,
    index: int,
    t: T,
)
    requires
        len == count_some(slots_view(slots)),
        len + f.len() == slots.len(),
        free_list_ok(slots, head, f),
        slots.len() <= usize::MAX,
        0 <= index < slots.len(),
        slots[index] is Occupied,
    ensures
        ({
            let slots2 = slots.update(index, Slot::Occupied(t));
            &&& len == count_some(slots_view(slots2))
            &&& len + f.len() == slots2.len()
            &&& free_list_ok(slots2, head, f)
            &&& slots_view(slots2) == slots_view(slots).update(index, Some(t))
        }),
{
    let slots2 = slots.update(index, Slot::Occupied(t));
    assert(slots_view(slots2) =~= slots_view(slots).update(index, Some(t)));
    lemma_count_some_update(slots_view(slots), index, Some(t));
    assert(!f.contains(index as usize)) by {
        if f.contains(index as usize) {
            let k2 = choose|k2: int| 0 <= k2 < f.len() && f[k2] == index as usize;
            assert(slots[index] is Vacant);
        }
    }
    assert forall|k: int| #![trigger f[k]] 0 <= k < f.len() implies slots2[f[k] as int]
        == Slot::<T>::Vacant(
        if k + 1 < f.len() {
            f[k + 1] as usize
        } else {
            SENTINEL
        },
    ) by {
        assert(f[k] != index as usize) by {
            if f[k] == index as usize {
                assert(f.contains(index as usize));
            }
        }
    }
    assert forall|i: int| 0 <= i < slots2.len() && slots2[i] is Vacant implies f.contains(
        i as usize,
    ) by {
        assert(slots[i] is Vacant);
    }
}

/// The arena's slot storage: a vector of slots together with a model of
/// the vector's capacity.
///
/// `Vec` exposes no verified view of its capacity, so `cap` carries one:
/// it always equals what `Vec::capacity` returns. Every operation that can
/// change the capacity — construction, push, reserve — goes through one of
/// the trusted wrappers below, which restate what std documents of the
/// capacity and read the capacity back into the model; in-place element
/// reads and writes, and `Vec::clear`, are documented to leave the
/// capacity untouched, so they are called directly and the model stands. A
/// `Slot` always holds at least a `usize`, so the element type is never
/// zero-sized and a vector that has not allocated has capacity zero.
struct SlotVec<T> {
    /// The slots.
    vec: Vec<Slot<T>>,
    /// The number of slots `vec` can hold without reallocating.
    cap: usize,
}

/// Relies on `Vec::new`: an empty vector does not allocate, so it has
/// capacity zero.
#[verifier::external_body]
fn slot_vec_new<T>() -> (r: SlotVec<T>)
    ensures
        r.vec@ == Seq::<Slot<T>>::empty(),
        r.cap == 0,
{
    let vec: Vec<Slot<T>> = Vec::new();
    let cap = vec.capacity();
    SlotVec { vec, cap }
}

/// Relies on `Vec::with_capacity`: the vector is empty and can hold at
/// least `cap` elements without reallocating (the allocator may give more).
#[verifier::external_body]
fn slot_vec_with_capacity<T>(cap: usize) -> (r: SlotVec<T>)
    ensures
        r.vec@ == Seq::<Slot<T>>::empty(),
        r.cap >= cap,
{
    let vec: Vec<Slot<T>> = Vec::with_capacity(cap);
    let given = vec.capacity();
    SlotVec { vec, cap: given }
}

/// Relies on `Vec::push` and the documented capacity discipline: a push
/// appends the element; the capacity never shrinks, always covers the
/// length, and does not change while there is spare capacity.
#[verifier::external_body]
fn slot_vec_push<T>(sv: &mut SlotVec<T>, slot: Slot<T>)
    requires
        old(sv).vec@.len() < usize::MAX,
    ensures
        final(sv).vec@ == old(sv).vec@.push(slot),
        final(sv).cap >= old(sv).cap,
        final(sv).cap >= final(sv).vec@.len(),
        old(sv).vec@.len() < old(sv).cap ==> final(sv).cap == old(sv).cap,
{
    sv.vec.push(slot);
    sv.cap = sv.vec.capacity();
}

/// Relies on `Vec::reserve`: the elements are unchanged and the capacity
/// reaches at least the length plus `additional`; it never shrinks, and
/// does not change when it is already sufficient.
#[verifier::external_body]
fn slot_vec_reserve<T>(sv: &mut SlotVec<T>, additional: usize)
    requires
        old(sv).vec@.len() + additional <= usize::MAX,
    ensures
        final(sv).vec@ == old(sv).vec@,
        final(sv).cap >= old(sv).cap,
        final(sv).cap >= old(sv).vec@.len() + additional,
        old(sv).vec@.len() + additional <= old(sv).cap ==> final(sv).cap == old(sv).cap,
{
    sv.vec.reserve(additional);
    sv.cap = sv.vec.capacity();
}

/// Relies on `Vec::reserve_exact`: as `Vec::reserve`, requesting only the
/// minimum — the allocator may still give more.
#[verifier::external_body]
fn slot_vec_reserve_exact<T>(sv: &mut SlotVec<T>, additional: usize)
    requires
        old(sv).vec@.len() + additional <= usize::MAX,
    ensures
        final(sv).vec@ == old(sv).vec@,
        final(sv).cap >= old(sv).cap,
        final(sv).cap >= old(sv).vec@.len() + additional,
        old(sv).vec@.len() + additional <= old(sv).cap ==> final(sv).cap == old(sv).cap,
{
    sv.vec.reserve_exact(additional);
    sv.cap = sv.vec.capacity();
}

/// An object arena.
///
/// `Arena<T>` holds an array of slots for storing objects. Every slot is
/// always in one of two states: occupied or vacant. Abstractly, an arena is
/// a sequence of optional values (`self@`), one entry per slot.
///
/// Inserting finds a vacant slot through the free list, or appends a new
/// slot at the end; it returns the slot's index, which stays valid until the
/// object is removed. Removing marks the slot vacant and hands the object
/// back. Both are `O(1)`, insertion amortized.
pub struct Arena<T> {
    /// Slots in which objects are stored, with the capacity model.
    slots: SlotVec<T>,
    /// Number of occupied slots in the arena.
    len: usize,
    /// Index of the first vacant slot on the free list.
    head: usize,
    /// The free list, in list order, as a ghost sequence of slot indices.
    free: Ghost<Seq<usize>>,
}

/// The contents of a slot sequence, abstractly.
spec fn slots_view<T>(slots: Seq<Slot<T>>) -> Seq<Option<T>> {
    Seq::new(slots.len(), |i: int| slot_view(slots[i]))
}

/// The free-list invariant: `f` names exactly the vacant slots, in list
/// order, and `head` with the `Vacant` links realizes that chain.
spec fn free_list_ok<T>(slots: Seq<Slot<T>>, head: usize, f: Seq<usize>) -> bool {
    &&& forall|k: int| 0 <= k < f.len() ==> #[trigger] f[k] < slots.len()
    &&& forall|j: int, k: int| #![trigger f[j], f[k]] 0 <= j < k < f.len() ==> f[j] != f[k]
    &&& head == if f.len() == 0 {
        SENTINEL
    } else {
        f[0] as usize
    }
    &&& forall|k: int|
        #![trigger f[k]]
        0 <= k < f.len() ==> slots[f[k] as int] == Slot::<T>::Vacant(
            if k + 1 < f.len() {
                f[k + 1] as usize
            } else {
                SENTINEL
            },
        )
    &&& forall|i: int| 0 <= i < slots.len() && slots[i] is Vacant ==> f.contains(i as usize)
}

impl<T> Arena<T> {
    /// The contents of each slot: `self@[i]` is `Some(v)` iff slot `i` holds `v`.
    pub closed spec fn view(&self) -> Seq<Option<T>> {
        slots_view(self.slots.vec@)
    }

    /// Structural well-formedness of the arena.
    pub closed spec fn well_formed(&self) -> bool {
        &&& self.len == count_some(self@)
        &&& self.len + self.free@.len() == self.slots.vec@.len()
        &&& free_list_ok(self.slots.vec@, self.head, self.free@)
        &&& self.slots.vec@.len() <= self.slots.cap
    }

    /// The number of slots the arena can hold without reallocating.
    pub closed spec fn capacity_spec(&self) -> nat {
        self.slots.cap as nat
    }

    /// The index that the next `insert` will place its object at.
    pub closed spec fn next_vacant_spec(&self) -> usize {
        if self.head == SENTINEL {
            self.len
        } else {
            self.head
        }
    }

    /// The number of slots always fits in `usize`.
    proof fn lemma_view_len(&self)
        ensures
            self@.len() <= usize::MAX,
    {
        assert(vstd::std_specs::vec::spec_vec_len(&self.slots.vec) == self.slots.vec@.len());
    }

    /// Constructs a new, empty arena.
    ///
    /// The arena will not allocate until objects are inserted into it.
    #[inline]
    pub fn new() -> (r: Self)
        ensures
            r.well_formed(),
            r@ == Seq::<Option<T>>::empty(),
            r.capacity_spec() == 0,
    {
        let r = Arena { slots: slot_vec_new(), len: 0, head: SENTINEL, free: Ghost(Seq::empty()) };
        proof {
            assert(r@ =~= Seq::<Option<T>>::empty());
        }
        r
    }

    /// Returns the number of occupied slots in the arena.
    #[inline]
    pub fn len(&self) -> (r: usize)
        requires
            self.well_formed(),
        ensures
            r == count_some(self@),
    {
        self.len
    }

    /// Returns `true` if all slots are vacant.
    #[inline]
    pub fn is_empty(&self) -> (r: bool)
        requires
            self.well_formed(),
        ensures
            r <==> count_some(self@) == 0,
    {
        self.len == 0
    }

    /// Constructs a new, empty arena with the specified capacity (number of
    /// slots). The arena will be able to hold at least `cap` objects without
    /// reallocating; if `cap` is 0, it will not allocate.
    #[inline]
    pub fn with_capacity(cap: usize) -> (r: Self)
        ensures
            r.well_formed(),
            r@ == Seq::<Option<T>>::empty(),
            r.capacity_spec() >= cap,
    {
        let r = Arena {
            slots: slot_vec_with_capacity(cap),
            len: 0,
            head: SENTINEL,
            free: Ghost(Seq::empty()),
        };
        proof {
            assert(r@ =~= Seq::<Option<T>>::empty());
        }
        r
    }

    /// Returns the number of slots the arena can hold without reallocating.
    ///
    /// The allocator decides the exact capacity; it is never below the
    /// number of existing slots.
    #[inline]
    pub fn capacity(&self) -> (r: usize)
        requires
            self.well_formed(),
        ensures
            r == self.capacity_spec(),
            r >= self@.len(),
    {
        self.slots.cap
    }

    /// Returns the index of the slot that the next `insert` will use if no
    /// other mutating call takes place in between.
    #[inline]
    pub fn next_vacant(&mut self) -> (r: usize)
        requires
            old(self).well_formed(),
        ensures
            *final(self) == *old(self),
            r == old(self).next_vacant_spec(),
            r <= old(self)@.len(),
            r < old(self)@.len() ==> old(self)@[r as int] is None,
    {
        if self.head == SENTINEL {
            proof {
                self.lemma_view_len();
                assert(self.free@.len() == 0);
                lemma_count_some_le_len(self@);
                assert(self.len == self.slots.vec@.len());
            }
            self.len
        } else {
            proof {
                assert(self.free@.len() > 0);
                assert(self.head == self.free@[0]);
                assert(self.head < self.slots.vec@.len());
                assert(self.slots.vec@[self.head as int] is Vacant);
                assert(self@[self.head as int] is None);
            }
            self.head
        }
    }

    /// Inserts an object into the arena and returns the index of its slot:
    /// the first slot of the free list, or a new slot appended at the end.
    /// The arena reallocates only when it is full; while a slot is vacant
    /// or spare capacity remains, the capacity does not change.
    ///
    /// While any slot is vacant, no index at or beyond the current slot
    /// count is used.
    pub fn insert(&mut self, object: T) -> (r: usize)
        requires
            old(self).well_formed(),
            old(self)@.len() < usize::MAX,
        ensures
            final(self).well_formed(),
            r == old(self).next_vacant_spec(),
            r <= old(self)@.len(),
            r < old(self)@.len() ==> old(self)@[r as int] is None,
            count_some(old(self)@) < old(self)@.len() ==> r < old(self)@.len(),
            final(self)@ == inserted_at(old(self)@, r as int, object),
            count_some(final(self)@) == count_some(old(self)@) + 1,
            final(self).capacity_spec() >= old(self).capacity_spec(),
            count_some(old(self)@) < old(self)@.len() || old(self)@.len() < old(
                self,
            ).capacity_spec() ==> final(self).capacity_spec() == old(self).capacity_spec(),
    {
        proof {
            lemma_count_some_le_len(self@);
        }
        self.len = self.len + 1;

        if self.head == SENTINEL {
            slot_vec_push(&mut self.slots, Slot::Occupied(object));
            proof {
                assert(self@ =~= old(self)@.push(Some(object)));
                lemma_count_some_push(old(self)@, Some(object));
                assert forall|i: int|
                    0 <= i < self.slots.vec@.len() && self.slots.vec@[i] is Vacant implies
                    self.free@.contains(i as usize) by {
                    assert(old(self).slots.vec@[i] is Vacant);
                    assert(old(self).free@.contains(i as usize));
                }
                assert(self.well_formed());
            }
            self.len - 1
        } else {
            let index = self.head;
            proof {
                assert(self.free@[0] == index);
                assert(self.slots.vec@[index as int] is Vacant);
            }
            let next = match self.slots.vec[index] {
                Slot::Vacant(next) => next,
                Slot::Occupied(_) => {
                    proof {
                        assert(false);
                    }
                    0
                },
            };
            self.head = next;
            self.slots.vec[index] = Slot::Occupied(object);
            self.free = Ghost(old(self).free@.drop_first());
            proof {
                let f = old(self).free@;
                let f2 = self.free@;
                assert(f2.len() == f.len() - 1);
                assert(forall|k: int| 0 <= k < f2.len() ==> #[trigger] f2[k] == f[k + 1]);
                lemma_count_some_update(old(self)@, index as int, Some(object));
                assert(self@ =~= old(self)@.update(index as int, Some(object)));
                assert forall|k: int| 0 <= k < f2.len() implies #[trigger] self.slots.vec@[f2[k] as int]
                    == Slot::<T>::Vacant(
                    if k + 1 < f2.len() {
                        f2[k + 1] as usize
                    } else {
                        SENTINEL
                    },
                ) by {
                    assert(f[k + 1] != f[0]);
                    assert(self.slots.vec@[f[k + 1] as int] == old(self).slots.vec@[f[k + 1] as int]);
                }
                assert forall|i: int|
                    0 <= i < self.slots.vec@.len() && self.slots.vec@[i] is Vacant implies f2.contains(
                    i as usize,
                ) by {
                    assert(old(self).slots.vec@[i] is Vacant);
                    assert(f.contains(i as usize));
                    let k2 = choose|k2: int| 0 <= k2 < f.len() && f[k2] == i as usize;
                    assert(k2 != 0);
                    assert(f2[k2 - 1] == i as usize);
                }
                assert(self.well_formed());
            }
            index
        }
    }

    /// Removes the object stored at `index` from the arena and returns it.
    ///
    /// `None` is returned in case the slot is vacant, or `index` is out of
    /// bounds; the arena is then left unchanged. After a removal, the freed
    /// slot is the one that the next `insert` will use.
    pub fn remove(&mut self, index: usize) -> (r: Option<T>)
        requires
            old(self).well_formed(),
        ensures
            final(self).well_formed(),
            final(self).capacity_spec() == old(self).capacity_spec(),
            index < old(self)@.len() && old(self)@[index as int] is Some ==> {
                &&& r == old(self)@[index as int]
                &&& final(self)@ == old(self)@.update(index as int, None)
                &&& final(self).next_vacant_spec() == index
                &&& count_some(final(self)@) == count_some(old(self)@) - 1
            },
            !(index < old(self)@.len() && old(self)@[index as int] is Some) ==> r is None
                && *final(self) == *old(self),
    {
        if index >= self.slots.vec.len() {
            return None;
        }
        let occupied = matches!(self.slots.vec[index], Slot::Occupied(_));
        if !occupied {
            return None;
        }
        proof {
            lemma_count_some_ge_one(self@, index as int);
            assert(!self.free@.contains(index)) by {
                if self.free@.contains(index) {
                    let k2 = choose|k2: int|
                        0 <= k2 < self.free@.len() && self.free@[k2] == index;
                    assert(self.slots.vec@[index as int] is Vacant);
                }
            }
        }
        let mut slot = Slot::Vacant(self.head);
        core::mem::swap(&mut slot, vstd::std_specs::vec::vec_index_mut(&mut self.slots.vec, index));
        self.head = index;
        self.len = self.len - 1;
        self.free = Ghost(seq![index] + old(self).free@);
        proof {
            let f = old(self).free@;
            let f2 = self.free@;
            assert(f2[0] == index);
            assert(forall|k: int| 1 <= k < f2.len() ==> #[trigger] f2[k] == f[k - 1]);
            lemma_count_some_update(old(self)@, index as int, None);
            assert(self@ =~= old(self)@.update(index as int, None));
            assert forall|k: int| 0 <= k < f2.len() implies #[trigger] self.slots.vec@[f2[k] as int]
                == Slot::<T>::Vacant(
                if k + 1 < f2.len() {
                    f2[k + 1] as usize
                } else {
                    SENTINEL
                },
            ) by {
                if k > 0 {
                    assert(f[k - 1] != index);
                    assert(self.slots.vec@[f[k - 1] as int] == old(self).slots.vec@[f[k - 1] as int]);
                    if old(self).head == SENTINEL {
                        assert(f.len() == 0);
                    }
                }
            }
            assert forall|i: int|
                0 <= i < self.slots.vec@.len() && self.slots.vec@[i] is Vacant implies f2.contains(
                i as usize,
            ) by {
                if i == index {
                    assert(f2[0] == index);
                } else {
                    assert(old(self).slots.vec@[i] is Vacant);
                    assert(f.contains(i as usize));
                    let k2 = choose|k2: int| 0 <= k2 < f.len() && f[k2] == i as usize;
                    assert(f2[k2 + 1] == i as usize);
                }
            }
            assert(self.well_formed());
        }
        match slot {
            Slot::Occupied(object) => Some(object),
            Slot::Vacant(_) => {
                proof {
                    assert(false);
                }
                None
            },
        }
    }

    /// Returns a reference to the object stored at `index`.
    ///
    /// If `index` is out of bounds or the slot is vacant, `None` is
    /// returned.
    #[inline]
    pub fn get(&self, index: usize) -> (r: Option<&T>)
        ensures
            (index < self@.len() && self@[index as int] is Some) <==> r is Some,
            r is Some ==> self@[index as int] == Some(*r.unwrap()),
    {
        if index >= self.slots.vec.len() {
            return None;
        }
        match &self.slots.vec[index] {
            Slot::Vacant(_) => None,
            Slot::Occupied(object) => Some(object),
        }
    }

    /// Returns a mutable reference to the object stored at `index`.
    ///
    /// If `index` is out of bounds or the slot is vacant, `None` is
    /// returned and the arena is left unchanged.
    pub fn get_mut(&mut self, index: usize) -> (r: Option<&mut T>)
        requires
            old(self).well_formed(),
        ensures
            final(self).well_formed(),
            (index < old(self)@.len() && old(self)@[index as int] is Some) <==> r is Some,
            r is Some ==> old(self)@[index as int] == Some(*r.unwrap()) && final(self)@ == old(
                self,
            )@.update(index as int, Some(*final(r.unwrap()))) && final(self).next_vacant_spec()
                == old(self).next_vacant_spec(),
            r is None ==> final(self)@ == old(self)@ && final(self).next_vacant_spec() == old(
                self,
            ).next_vacant_spec(),
            final(self).capacity_spec() == old(self).capacity_spec(),
    {
        if index >= self.slots.vec.len() {
            return None;
        }
        let occupied = matches!(self.slots.vec[index], Slot::Occupied(_));
        if !occupied {
            return None;
        }
        proof {
            self.lemma_view_len();
            assert forall|t: T|
                #![trigger self.slots.vec@.update(index as int, Slot::Occupied(t))]
                true implies {
                let slots2 = self.slots.vec@.update(index as int, Slot::Occupied(t));
                &&& self.len == count_some(slots_view(slots2))
                &&& self.len + self.free@.len() == slots2.len()
                &&& free_list_ok(slots2, self.head, self.free@)
                &&& slots_view(slots2) == self@.update(index as int, Some(t))
            } by {
                lemma_value_update_keeps_wf(
                    self.slots.vec@,
                    self.head,
                    self.free@,
                    self.len as int,
                    index as int,
                    t,
                );
            }
        }
        let slot = vstd::std_specs::vec::vec_index_mut(&mut self.slots.vec, index);
        match slot {
            Slot::Occupied(object) => Some(object),
            Slot::Vacant(_) => {
                proof {
                    assert(false);
                }
                None
            },
        }
    }

    /// Returns a reference to the object stored at `index`, without the
    /// checks of `get`.
    ///
    /// The index must be in bounds and its slot occupied.
    #[inline]
    pub fn get_unchecked(&self, index: usize) -> (r: &T)
        requires
            index < self@.len(),
            self@[index as int] is Some,
        ensures
            self@[index as int] == Some(*r),
    {
        match &self.slots.vec[index] {
            Slot::Occupied(object) => object,
            Slot::Vacant(_) => {
                proof {
                    assert(false);
                }
                vstd::pervasive::unreached()
            },
        }
    }

    /// Returns a mutable reference to the object stored at `index`, without
    /// the checks of `get_mut`.
    ///
    /// The index must be in bounds and its slot occupied.
    #[inline]
    pub fn get_unchecked_mut(&mut self, index: usize) -> (r: &mut T)
        requires
            old(self).well_formed(),
            index < old(self)@.len(),
            old(self)@[index as int] is Some,
        ensures
            final(self).well_formed(),
            old(self)@[index as int] == Some(*r),
            final(self)@ == old(self)@.update(index as int, Some(*final(r))),
            final(self).next_vacant_spec() == old(self).next_vacant_spec(),
            final(self).capacity_spec() == old(self).capacity_spec(),
    {
        proof {
            self.lemma_view_len();
            assert forall|t: T|
                #![trigger self.slots.vec@.update(index as int, Slot::Occupied(t))]
                true implies {
                let slots2 = self.slots.vec@.update(index as int, Slot::Occupied(t));
                &&& self.len == count_some(slots_view(slots2))
                &&& self.len + self.free@.len() == slots2.len()
                &&& free_list_ok(slots2, self.head, self.free@)
                &&& slots_view(slots2) == self@.update(index as int, Some(t))
            } by {
                lemma_value_update_keeps_wf(
                    self.slots.vec@,
                    self.head,
                    self.free@,
                    self.len as int,
                    index as int,
                    t,
                );
            }
        }
        match vstd::std_specs::vec::vec_index_mut(&mut self.slots.vec, index) {
            Slot::Occupied(object) => object,
            Slot::Vacant(_) => {
                proof {
                    assert(false);
                }
                vstd::pervasive::unreached()
            },
        }
    }

    /// Swaps the objects stored at indices `a` and `b`.
    ///
    /// Both indices must be in bounds and their slots occupied.
    pub fn swap(&mut self, a: usize, b: usize)
        requires
            old(self).well_formed(),
            a < old(self)@.len(),
            old(self)@[a as int] is Some,
            b < old(self)@.len(),
            old(self)@[b as int] is Some,
        ensures
            final(self).well_formed(),
            final(self)@ == old(self)@.update(a as int, old(self)@[b as int]).update(
                b as int,
                old(self)@[a as int],
            ),
            count_some(final(self)@) == count_some(old(self)@),
            final(self).capacity_spec() == old(self).capacity_spec(),
    {
        if a == b {
            proof {
                assert(self@ =~= old(self)@.update(a as int, old(self)@[b as int]).update(
                    b as int,
                    old(self)@[a as int],
                ));
            }
            return;
        }
        proof {
            assert(!self.free@.contains(a)) by {
                if self.free@.contains(a) {
                    let k2 = choose|k2: int| 0 <= k2 < self.free@.len() && self.free@[k2] == a;
                    assert(self.slots.vec@[a as int] is Vacant);
                }
            }
            assert(!self.free@.contains(b)) by {
                if self.free@.contains(b) {
                    let k2 = choose|k2: int| 0 <= k2 < self.free@.len() && self.free@[k2] == b;
                    assert(self.slots.vec@[b as int] is Vacant);
                }
            }
        }
        let mut slot: Slot<T> = Slot::Vacant(0);
        core::mem::swap(&mut slot, vstd::std_specs::vec::vec_index_mut(&mut self.slots.vec, a));
        core::mem::swap(&mut slot, vstd::std_specs::vec::vec_index_mut(&mut self.slots.vec, b));
        core::mem::swap(&mut slot, vstd::std_specs::vec::vec_index_mut(&mut self.slots.vec, a));
        proof {
            let s0 = old(self).slots.vec@;
            assert(self.slots.vec@ =~= s0.update(a as int, s0[b as int]).update(b as int, s0[a as int]));
            assert(self@ =~= old(self)@.update(a as int, old(self)@[b as int]).update(
                b as int,
                old(self)@[a as int],
            ));
            lemma_count_some_update(old(self)@, a as int, old(self)@[b as int]);
            lemma_count_some_update(
                old(self)@.update(a as int, old(self)@[b as int]),
                b as int,
                old(self)@[a as int],
            );
            let f = self.free@;
            assert forall|k: int| 0 <= k < f.len() implies self.slots.vec@[#[trigger] f[k] as int]
                == old(self).slots.vec@[f[k] as int] by {
                assert(f[k] != a && f[k] != b);
            }
            assert forall|i: int|
                0 <= i < self.slots.vec@.len() && self.slots.vec@[i] is Vacant implies f.contains(
                i as usize,
            ) by {
                assert(old(self).slots.vec@[i] is Vacant);
            }
            assert(self.well_formed());
        }
    }

    /// Clears the arena, removing and dropping all objects it holds. The
    /// allocated memory is kept for reuse.
    #[inline]
    pub fn clear(&mut self)
        ensures
            final(self).well_formed(),
            final(self)@ == Seq::<Option<T>>::empty(),
            final(self).capacity_spec() == old(self).capacity_spec(),
    {
        self.slots.vec.clear();
        self.len = 0;
        self.head = SENTINEL;
        self.free = Ghost(Seq::empty());
        proof {
            assert(self@ =~= Seq::<Option<T>>::empty());
        }
    }

    /// Reserves capacity for at least `additional` more objects to be
    /// inserted, counting existing vacant slots. The arena may reserve more
    /// space to avoid frequent reallocations. The slots are unchanged, and
    /// afterwards at least `additional` objects fit without reallocation.
    ///
    /// The occupied count plus `additional` must not overflow `usize`.
    pub fn reserve(&mut self, additional: usize)
        requires
            old(self).well_formed(),
            count_some(old(self)@) + additional <= usize::MAX,
        ensures
            final(self).well_formed(),
            final(self)@ == old(self)@,
            final(self).next_vacant_spec() == old(self).next_vacant_spec(),
            final(self).capacity_spec() >= old(self).capacity_spec(),
            final(self).capacity_spec() >= count_some(final(self)@) + additional,
    {
        proof {
            lemma_count_some_le_len(self@);
        }
        let vacant = self.slots.vec.len() - self.len;
        if additional > vacant {
            slot_vec_reserve(&mut self.slots, additional - vacant);
        }
        proof {
            assert(self@ =~= old(self)@);
        }
    }

    /// Reserves the minimum capacity for at least `additional` more objects
    /// to be inserted, counting existing vacant slots. The allocator may
    /// still give the arena more space than it requests. The slots are
    /// unchanged, and afterwards at least `additional` objects fit without
    /// reallocation.
    ///
    /// The occupied count plus `additional` must not overflow `usize`.
    pub fn reserve_exact(&mut self, additional: usize)
        requires
            old(self).well_formed(),
            count_some(old(self)@) + additional <= usize::MAX,
        ensures
            final(self).well_formed(),
            final(self)@ == old(self)@,
            final(self).next_vacant_spec() == old(self).next_vacant_spec(),
            final(self).capacity_spec() >= old(self).capacity_spec(),
            final(self).capacity_spec() >= count_some(final(self)@) + additional,
    {
        proof {
            lemma_count_some_le_len(self@);
        }
        let vacant = self.slots.vec.len() - self.len;
        if additional > vacant {
            slot_vec_reserve_exact(&mut self.slots, additional - vacant);
        }
        proof {
            assert(self@ =~= old(self)@);
        }
    }

    /// Returns an iterator over occupied slots, yielding each index with a
    /// reference to its object, in ascending index order.
    #[inline]
    pub fn iter(&self) -> (r: Iter<'_, T>)
        ensures
            r.slots() == self@,
            r.cursor() == 0,
    {
        Iter { arena: self, index: 0 }
    }

    /// Returns an iterator over occupied slots, yielding each index with a
    /// mutable reference to its object, in ascending index order.
    #[inline]
    pub fn iter_mut(&mut self) -> (r: IterMut<'_, T>)
        requires
            old(self).well_formed(),
        ensures
            r.well_formed(),
            r.slots() == old(self)@,
            r.cursor() == 0,
            final(self)@ == (*final(r.arena_ref()))@,
            final(self).next_vacant_spec() == (*final(r.arena_ref())).next_vacant_spec(),
            final(self).capacity_spec() == (*final(r.arena_ref())).capacity_spec(),
            (*final(r.arena_ref())).well_formed() ==> final(self).well_formed(),
    {
        IterMut { arena: self, index: 0 }
    }
}

impl<T> Arena<T> {
    /// Builds an arena from a vector of objects: each object is inserted in
    /// order, so the object at position `i` ends up at slot index `i`.
    pub fn from_iter(items: Vec<T>) -> (r: Arena<T>)
        ensures
            r.well_formed(),
            r@.len() == items@.len(),
            r.capacity_spec() >= items@.len(),
            forall|i: int| 0 <= i < items@.len() ==> r@[i] == Some(items@[i]),
    {
        proof {
            assert(vstd::std_specs::vec::spec_vec_len(&items) == items@.len());
        }
        let ghost all = items@;
        let n = items.len();
        let mut arena = Arena::with_capacity(n);
        let mut src = items;
        while src.len() > 0
            invariant
                arena.well_formed(),
                arena@.len() + src@.len() == all.len(),
                all.len() <= usize::MAX,
                src@ == all.skip(arena@.len() as int),
                count_some(arena@) == arena@.len(),
                forall|i: int| 0 <= i < arena@.len() ==> #[trigger] arena@[i] == Some(all[i]),
            decreases src@.len(),
        {
            let ghost done = arena@.len() as int;
            let v = src.remove(0);
            proof {
                assert(v == all[done]);
                assert(src@ =~= all.skip(done + 1));
                lemma_count_some_le_len(arena@);
            }
            let ghost pre = arena@;
            let idx = arena.insert(v);
            proof {
                if idx < pre.len() {
                    assert(pre[idx as int] is None);
                    assert(false);
                }
                assert(arena@ =~= pre.push(Some(v)));
            }
        }
        proof {
            assert(arena@.len() == all.len());
        }
        arena
    }
}

impl<T> Default for Arena<T> {
    /// The default arena is a new, empty one.
    fn default() -> (r: Self)
        ensures
            r.well_formed(),
            r@ == Seq::<Option<T>>::empty(),
    {
        Arena::new()
    }
}

impl<T: Clone> Clone for Arena<T> {
    /// Clones the arena slot by slot: the clone has the same slot count and
    /// the same occupancy layout, each object cloned in place, and reuses
    /// indices in the same order as the original.
    fn clone(&self) -> (res: Self)
        ensures
            res@.len() == self@.len(),
            res.capacity_spec() >= res@.len(),
            forall|i: int|
                0 <= i < self@.len() ==> ((#[trigger] res@[i]) is Some <==> self@[i] is Some),
            forall|i: int|
                0 <= i < self@.len() && self@[i] is Some ==> cloned::<T>(
                    self@[i].unwrap(),
                    (#[trigger] res@[i]).unwrap(),
                ),
            self.well_formed() ==> res.well_formed() && res.next_vacant_spec()
                == self.next_vacant_spec(),
    {
        let n = self.slots.vec.len();
        let mut slots2: SlotVec<T> = slot_vec_with_capacity(n);
        let mut i: usize = 0;
        while i < n
            invariant
                i <= n,
                n == self.slots.vec@.len(),
                slots2.vec@.len() == i,
                i <= slots2.cap,
                n <= slots2.cap,
                forall|k: int|
                    0 <= k < i ==> ((#[trigger] slots2.vec@[k]) is Vacant <==> self.slots.vec@[k] is Vacant),
                forall|k: int|
                    0 <= k < i && self.slots.vec@[k] is Vacant ==> #[trigger] slots2.vec@[k]
                        == self.slots.vec@[k],
                forall|k: int|
                    0 <= k < i && self.slots.vec@[k] is Occupied ==> cloned::<T>(
                        self.slots.vec@[k]->Occupied_0,
                        (#[trigger] slots2.vec@[k])->Occupied_0,
                    ),
            decreases n - i,
        {
            let s2 = match &self.slots.vec[i] {
                Slot::Vacant(next) => Slot::Vacant(*next),
                Slot::Occupied(object) => Slot::Occupied(object.clone()),
            };
            slot_vec_push(&mut slots2, s2);
            i = i + 1;
        }
        let res = Arena { slots: slots2, len: self.len, head: self.head, free: self.free };
        proof {
            assert forall|k: int| 0 <= k < self@.len() implies ((#[trigger] res@[k]) is Some
                <==> self@[k] is Some) by {
                assert(res@[k] == slot_view(res.slots.vec@[k]));
            }
            if self.well_formed() {
                lemma_count_some_same_pattern(res@, self@);
                let f = res.free@;
                assert forall|k: int| #![trigger f[k]] 0 <= k < f.len() implies res.slots.vec@[f[k] as int]
                    == Slot::<T>::Vacant(
                    if k + 1 < f.len() {
                        f[k + 1] as usize
                    } else {
                        SENTINEL
                    },
                ) by {
                    assert(self.slots.vec@[f[k] as int] is Vacant);
                    assert(res.slots.vec@[f[k] as int] == self.slots.vec@[f[k] as int]);
                }
                assert forall|j: int|
                    0 <= j < res.slots.vec@.len() && res.slots.vec@[j] is Vacant implies f.contains(
                    j as usize,
                ) by {
                    assert(self.slots.vec@[j] is Vacant);
                }
                assert(res.well_formed());
            }
        }
        res
    }
}

/// Two slot sequences with the same occupancy pattern hold the same number
/// of objects.
proof fn lemma_count_some_same_pattern<T>(a: Seq<Option<T>>, b: Seq<Option<T>>)
    requires
        a.len() == b.len(),
        forall|i: int| 0 <= i < a.len() ==> (a[i] is Some <==> #[trigger] b[i] is Some),
    ensures
        count_some(a) == count_some(b),
    decreases a.len(),
{
    if a.len() > 0 {
        assert(a.last() is Some <==> b.last() is Some);
        lemma_count_some_same_pattern(a.drop_last(), b.drop_last());
    }
}

impl<T> Arena<T> {
    /// Returns a consuming iterator over occupied slots, yielding `(index,
    /// object)` pairs in ascending index order.
    pub fn into_iter(self) -> (r: IntoIter<T>)
        ensures
            r.well_formed(),
            r.remaining() == self@,
            r.offset() == 0,
    {
        let ghost orig = self.slots.vec@;
        proof {
            assert(vstd::std_specs::vec::spec_vec_len(&self.slots.vec) == self.slots.vec@.len());
        }
        let Arena { slots, len: _, head: _, free: _ } = self;
        let mut src = slots.vec;
        let mut rev: Vec<Slot<T>> = Vec::new();
        while src.len() > 0
            invariant
                src@.len() + rev@.len() == orig.len(),
                src@ == orig.subrange(0, src@.len() as int),
                forall|k: int| 0 <= k < rev@.len() ==> #[trigger] rev@[k] == orig[orig.len() - 1
                    - k],
            decreases src@.len(),
        {
            proof {
                assert(src@.last() == orig[src@.len() - 1]);
            }
            match src.pop() {
                Some(s) => {
                    rev.push(s);
                },
                None => {},
            }
            proof {
                assert(src@ =~= orig.subrange(0, src@.len() as int));
            }
        }
        let r = IntoIter { rev, index: 0 };
        proof {
            assert(r.rev@.reverse() =~= orig);
            assert(r.remaining() =~= slots_view(orig));
        }
        r
    }
}

/// A consuming iterator over the occupied slots of an `Arena`, yielding
/// `(index, object)` pairs in ascending index order.
pub struct IntoIter<T> {
    /// The not-yet-visited slots, in reverse index order, so that the next
    /// slot to visit is the last element.
    rev: Vec<Slot<T>>,
    /// Index of the current slot: every occupied slot below it has been
    /// yielded already.
    index: usize,
}

impl<T> IntoIter<T> {
    /// The contents of the slots not yet visited, in index order.
    pub closed spec fn remaining(&self) -> Seq<Option<T>> {
        slots_view(self.rev@.reverse())
    }

    /// The slot index that the front of `remaining()` corresponds to.
    pub closed spec fn offset(&self) -> int {
        self.index as int
    }

    /// The last slot index stays representable.
    pub closed spec fn well_formed(&self) -> bool {
        self.index + self.rev@.len() <= usize::MAX
    }

    /// Yields the next occupied slot: the smallest occupied index at or
    /// after the offset, with its object moved out, or `None` when no
    /// occupied slot is left.
    pub fn next(&mut self) -> (r: Option<(usize, T)>)
        requires
            old(self).well_formed(),
        ensures
            final(self).well_formed(),
            match r {
                Some(p) => {
                    &&& old(self).offset() <= p.0
                    &&& p.0 - old(self).offset() < old(self).remaining().len()
                    &&& old(self).remaining()[p.0 - old(self).offset()] == Some(p.1)
                    &&& forall|k: int|
                        0 <= k < p.0 - old(self).offset() ==> old(self).remaining()[k] is None
                    &&& final(self).remaining() == old(self).remaining().skip(
                        p.0 + 1 - old(self).offset(),
                    )
                    &&& final(self).offset() == p.0 + 1
                },
                None => {
                    &&& forall|k: int|
                        0 <= k < old(self).remaining().len() ==> old(
                            self,
                        ).remaining()[k] is None
                    &&& final(self).remaining().len() == 0
                    &&& final(self).offset() == old(self).offset() + old(self).remaining().len()
                },
            },
    {
        loop
            invariant
                self.index + self.rev@.len() <= usize::MAX,
                old(self).offset() <= self.index,
                self.index - old(self).offset() + self.remaining().len() == old(
                    self,
                ).remaining().len(),
                self.remaining() == old(self).remaining().skip(
                    self.index - old(self).offset(),
                ),
                forall|k: int|
                    0 <= k < self.index - old(self).offset() ==> old(
                        self,
                    ).remaining()[k] is None,
            decreases self.rev@.len(),
        {
            let ghost r0 = self.rev@;
            match self.rev.pop() {
                None => {
                    proof {
                        assert(self.remaining().len() == 0);
                    }
                    return None;
                },
                Some(s) => {
                    let i = self.index;
                    self.index = i + 1;
                    proof {
                        let off0 = old(self).offset();
                        assert(r0.reverse()[0] == r0[r0.len() - 1]);
                        assert(slot_view(s) == old(self).remaining()[i - off0]) by {
                            assert(slots_view(r0.reverse())[0] == slot_view(r0.reverse()[0]));
                        }
                        assert(self.rev@ == r0.drop_last());
                        assert(self.rev@.reverse() =~= r0.reverse().skip(1));
                        assert(self.remaining() =~= slots_view(r0.reverse()).skip(1));
                        assert(self.remaining() =~= old(self).remaining().skip(i + 1 - off0));
                    }
                    match s {
                        Slot::Occupied(object) => {
                            proof {
                                assert(old(self).remaining()[i - old(self).offset()] == Some(
                                    object,
                                ));
                            }
                            return Some((i, object));
                        },
                        Slot::Vacant(_) => {
                            proof {
                                assert(old(self).remaining()[i - old(self).offset()] is None);
                            }
                        },
                    }
                },
            }
        }
    }
}

/// An iterator over the occupied slots of an `Arena`, yielding `(index,
/// reference)` pairs in ascending index order.
pub struct Iter<'a, T> {
    /// The arena being iterated over.
    arena: &'a Arena<T>,
    /// Index of the current slot: every occupied slot below it has been
    /// yielded already.
    index: usize,
}

impl<'a, T> Iter<'a, T> {
    /// The slot contents being walked.
    pub closed spec fn slots(&self) -> Seq<Option<T>> {
        self.arena@
    }

    /// The index the scan continues from.
    pub closed spec fn cursor(&self) -> int {
        self.index as int
    }

    /// Yields the next occupied slot: the smallest occupied index at or
    /// after the cursor, with a reference to its object, or `None` when no
    /// occupied slot is left.
    #[verifier::loop_isolation(false)]
    pub fn next(&mut self) -> (r: Option<(usize, &'a T)>)
        ensures
            final(self).slots() == old(self).slots(),
            match r {
                Some(p) => {
                    &&& old(self).cursor() <= p.0 < old(self).slots().len()
                    &&& old(self).slots()[p.0 as int] == Some(*p.1)
                    &&& forall|k: int|
                        old(self).cursor() <= k < p.0 ==> old(self).slots()[k] is None
                    &&& final(self).cursor() == p.0 + 1
                },
                None => {
                    &&& forall|k: int|
                        old(self).cursor() <= k < old(self).slots().len() ==> old(
                            self,
                        ).slots()[k] is None
                    &&& final(self).cursor() == if old(self).cursor()
                        > old(self).slots().len() {
                        old(self).cursor()
                    } else {
                        old(self).slots().len() as int
                    }
                },
            },
    {
        let a = self.arena;
        while self.index < a.slots.vec.len()
            invariant
                self.arena == a,
                old(self).cursor() <= self.index,
                self.index <= a.slots.vec@.len() || self.index == old(self).cursor(),
                forall|k: int| old(self).cursor() <= k < self.index ==> a@[k] is None,
            decreases a.slots.vec@.len() - self.index,
        {
            let i = self.index;
            self.index = i + 1;
            match &a.slots.vec[i] {
                Slot::Occupied(object) => {
                    return Some((i, object));
                },
                Slot::Vacant(_) => {},
            }
        }
        None
    }
}

/// An iterator over the occupied slots of an `Arena`, yielding `(index,
/// mutable reference)` pairs in ascending index order. Each yielded borrow
/// ends before the next call.
pub struct IterMut<'a, T> {
    /// The arena being iterated over.
    arena: &'a mut Arena<T>,
    /// Index of the current slot: every occupied slot below it has been
    /// yielded already.
    index: usize,
}

impl<'a, T> IterMut<'a, T> {
    /// The borrow of the arena that the iterator holds.
    pub closed spec fn arena_ref(&self) -> &'a mut Arena<T> {
        self.arena
    }

    /// The current slot contents being walked.
    pub closed spec fn slots(&self) -> Seq<Option<T>> {
        (*self.arena)@
    }

    /// The index the scan continues from.
    pub closed spec fn cursor(&self) -> int {
        self.index as int
    }

    /// The borrowed arena is well formed.
    pub closed spec fn well_formed(&self) -> bool {
        (*self.arena).well_formed()
    }

    /// The capacity of the borrowed arena.
    pub closed spec fn arena_capacity(&self) -> nat {
        (*self.arena).capacity_spec()
    }

    /// Yields the next occupied slot: the smallest occupied index at or
    /// after the cursor, with a mutable reference to its object, or `None`
    /// when no occupied slot is left. Writing through the yielded reference
    /// changes that slot's object and nothing else.
    #[verifier::loop_isolation(false)]
    pub fn next(&mut self) -> (r: Option<(usize, &mut T)>)
        requires
            old(self).well_formed(),
        ensures
            final(self).well_formed(),
            final(self).arena_capacity() == old(self).arena_capacity(),
            *final(final(self).arena_ref()) == *final(old(self).arena_ref()),
            match r {
                Some(p) => {
                    &&& old(self).cursor() <= p.0 < old(self).slots().len()
                    &&& old(self).slots()[p.0 as int] == Some(*p.1)
                    &&& forall|k: int|
                        old(self).cursor() <= k < p.0 ==> old(self).slots()[k] is None
                    &&& final(self).cursor() == p.0 + 1
                    &&& final(self).slots() == old(self).slots().update(
                        p.0 as int,
                        Some(*final(p.1)),
                    )
                },
                None => {
                    &&& forall|k: int|
                        old(self).cursor() <= k < old(self).slots().len() ==> old(
                            self,
                        ).slots()[k] is None
                    &&& final(self).slots() == old(self).slots()
                    &&& final(self).cursor() == if old(self).cursor()
                        > old(self).slots().len() {
                        old(self).cursor()
                    } else {
                        old(self).slots().len() as int
                    }
                },
            },
    {
        let n = self.arena.slots.vec.len();
        let mut i = self.index;
        let mut found = false;
        while !found && i < n
            invariant
                old(self).cursor() <= i,
                i <= n || i == old(self).cursor(),
                forall|k: int| old(self).cursor() <= k < i ==> (*self.arena)@[k] is None,
                found ==> i < n && (*self.arena)@[i as int] is Some,
            decreases n - i, (if found {
                0int
            } else {
                1int
            }),
        {
            if matches!(self.arena.slots.vec[i], Slot::Occupied(_)) {
                found = true;
            } else {
                i = i + 1;
            }
        }
        if found {
            self.index = i + 1;
            let m = self.arena.get_unchecked_mut(i);
            Some((i, m))
        } else {
            self.index = i;
            None
        }
    }
}

} // verus!
