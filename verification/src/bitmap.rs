//! Occupancy tracking for the arena.
//!
//! `Bitmap` records which slot indices are occupied and which are vacant,
//! for a given total number of slots. Slots are grouped into blocks of
//! `BLOCK_BITS` consecutive indices; each block stores its occupancy as one
//! bit mask word. All blocks that still have a vacant slot — except,
//! possibly, the last block — are kept on a doubly linked list threaded
//! through two index arrays, so that a vacant slot can be found in `O(1)`
//! and a released slot can be reclaimed in `O(1)`.

use vstd::prelude::*;
use vstd::std_specs::bits::axiom_u64_trailing_zeros;

verus! {

/// Number of slots covered by one mask word.
pub const BLOCK_BITS: usize = 64;

/// Marks the absence of a block index: the end of the free-block list,
/// or an unlinked block's neighbour fields.
const SENTINEL: usize = usize::MAX;

/// Returns the number of slots covered by one mask word.
#[inline]
fn bits() -> (r: usize)
    ensures
        r == BLOCK_BITS,
{
    BLOCK_BITS
}

/// True iff bit `o` of the mask `m` is set.
pub open spec fn bit_is_set(m: u64, o: int) -> bool {
    0 <= o < 64 && (m >> (o as u64)) & 1u64 == 1u64
}

/// Number of mask words needed to cover `len` slots.
pub open spec fn spec_blocks_for(len: nat) -> nat {
    len / 64 + if len % 64 > 0 {
        1nat
    } else {
        0nat
    }
}

/// Number of `true` entries in an occupancy sequence.
pub open spec fn count_true(s: Seq<bool>) -> nat
    decreases s.len(),
{
    if s.len() == 0 {
        0
    } else {
        count_true(s.drop_last()) + if s.last() {
            1nat
        } else {
            0nat
        }
    }
}

/// Returns the number of mask words required to cover `len` slots.
#[inline]
fn blocks_for(len: usize) -> (r: usize)
    ensures
        r == spec_blocks_for(len as nat),
{
    len / bits() + if len % bits() > 0 {
        1
    } else {
        0
    }
}

/// Given a block index and an offset within it, returns the slot index.
#[inline]
fn slot_index(block: usize, offset: usize) -> (r: usize)
    requires
        block * 64 + offset <= usize::MAX,
    ensures
        r == block * 64 + offset,
{
    block * bits() + offset
}

/// Given a slot index, returns its block index and the offset within the block.
#[inline]
fn block_and_offset(index: usize) -> (r: (usize, usize))
    ensures
        r.0 == index as int / 64,
        r.1 == index as int % 64,
{
    (index / bits(), index % bits())
}

/// Keeps track of occupied and vacant slots.
///
/// The tracker state is a sequence of blocks. Each block consists of a bit
/// mask (ones mark occupied slots), plus the indices of its successor and
/// predecessor on the free-block list. The three sequences are stored as
/// separate arrays so that repeated mask scans stay compact.
///
/// Abstractly, a `Bitmap` is a sequence of booleans (`self@`), one per slot,
/// `true` for occupied.
pub struct Bitmap {
    /// One occupancy mask per block.
    masks: Vec<u64>,
    /// Successor of each block on the free-block list, or `SENTINEL`.
    succs: Vec<usize>,
    /// Predecessor of each block on the free-block list, or `SENTINEL`.
    preds: Vec<usize>,
    /// Number of slots.
    len: usize,
    /// Number of occupied slots.
    occupied: usize,
    /// First block of the free-block list, or `SENTINEL` if the list is empty.
    head: usize,
    /// The free-block list, in list order, as a ghost sequence of block indices.
    list: Ghost<Seq<usize>>,
}

/// The occupancy sequence described by a sequence of mask words: entry `i`
/// is the state of bit `i % 64` of word `i / 64`.
spec fn occupancy(masks: Seq<u64>, len: nat) -> Seq<bool> {
    Seq::new(len, |i: int| bit_is_set(masks[i / 64], i % 64))
}

/// A doubly linked list over block indices below `nblocks`: `l` names the
/// linked blocks in order, `head` is the first of them or `SENTINEL`, and
/// `succs`/`preds` hold each linked block's neighbours and `SENTINEL` for
/// every unlinked block.
spec fn chain_ok(l: Seq<usize>, head: usize, succs: Seq<usize>, preds: Seq<usize>, nblocks: int) -> bool {
    &&& forall|k: int| 0 <= k < l.len() ==> #[trigger] l[k] < nblocks
    &&& forall|j: int, k: int| #![trigger l[j], l[k]] 0 <= j < k < l.len() ==> l[j] != l[k]
    &&& head == if l.len() == 0 {
        SENTINEL
    } else {
        l[0] as usize
    }
    &&& forall|k: int|
        0 <= k < l.len() ==> #[trigger] succs[l[k] as int] == if k + 1 < l.len() {
            l[k + 1] as usize
        } else {
            SENTINEL
        }
    &&& forall|k: int|
        0 <= k < l.len() ==> #[trigger] preds[l[k] as int] == if k == 0 {
            SENTINEL
        } else {
            l[k - 1] as usize
        }
    &&& forall|b: int|
        #![trigger preds[b]]
        #![trigger succs[b]]
        0 <= b < nblocks && !l.contains(b as usize) ==> preds[b] == SENTINEL && succs[b]
            == SENTINEL
}

impl Bitmap {
    /// The occupancy of each slot: `self@[i]` is `true` iff slot `i` is occupied.
    pub closed spec fn view(&self) -> Seq<bool> {
        occupancy(self.masks@, self.len as nat)
    }

    /// The pointer structure of the free-block list: `self.list` names the
    /// linked blocks in order, and `head`, `succs` and `preds` realize that
    /// chain; unlinked blocks carry sentinel neighbour fields.
    spec fn chain_well_formed(&self) -> bool {
        chain_ok(self.list@, self.head, self.succs@, self.preds@, self.masks@.len() as int)
    }

    /// The free-block list invariant: the pointer chain is well formed; every
    /// linked block is complete (covers only slots below `len`) and has a
    /// clear bit; and every block whose mask has a clear bit is linked,
    /// except possibly the last block.
    spec fn list_well_formed(&self) -> bool {
        let l = self.list@;
        &&& self.chain_well_formed()
        &&& forall|k: int|
            0 <= k < l.len() ==> self.masks@[#[trigger] l[k] as int] != u64::MAX && (l[k] + 1) * 64
                <= self.len
        &&& forall|b: int|
            0 <= b < self.masks@.len() - 1 && #[trigger] self.masks@[b] != u64::MAX ==> l.contains(
                b as usize,
            )
    }

    /// Structural well-formedness of the whole tracker.
    pub closed spec fn well_formed(&self) -> bool {
        &&& self.masks@.len() == spec_blocks_for(self.len as nat)
        &&& self.succs@.len() == self.masks@.len()
        &&& self.preds@.len() == self.masks@.len()
        &&& self.masks@.len() <= usize::MAX / 64 + 1
        &&& self.occupied == count_true(self@)
        &&& forall|b: int, o: int|
            0 <= b < self.masks@.len() && 0 <= o < 64 && b * 64 + o >= self.len ==> !(
            #[trigger] bit_is_set(self.masks@[b], o))
        &&& self.list_well_formed()
    }

    /// Constructs a new `Bitmap` with zero slots.
    #[inline]
    pub fn new() -> (r: Self)
        ensures
            r.well_formed(),
            r@ == Seq::<bool>::empty(),
    {
        let r = Bitmap {
            masks: Vec::new(),
            succs: Vec::new(),
            preds: Vec::new(),
            len: 0,
            occupied: 0,
            head: SENTINEL,
            list: Ghost(Seq::empty()),
        };
        proof {
            assert(r@ =~= Seq::<bool>::empty());
            assert(count_true(r@) == 0);
        }
        r
    }

    /// Returns the number of slots in the bitmap.
    #[inline]
    pub fn len(&self) -> (r: usize)
        ensures
            r == self@.len(),
    {
        self.len
    }

    /// Returns the number of occupied slots in the bitmap.
    #[inline]
    pub fn occupied(&self) -> (r: usize)
        requires
            self.well_formed(),
        ensures
            r == count_true(self@),
    {
        self.occupied
    }

    /// The well-formedness checked here is maintained statically: it holds
    /// after every public call, so there is nothing left to test at run time.
    pub fn check_invariants(&self)
        requires
            self.well_formed(),
    {
    }

    /// Returns an iterator over occupied slots, in ascending index order.
    #[inline]
    pub fn iter(&self) -> (r: Iter<'_>)
        requires
            self.well_formed(),
        ensures
            r.well_formed(),
            r.slots() == self@,
            r.cursor() == 0,
    {
        Iter { bitmap: self, index: 0 }
    }

    /// Returns `true` if the slot at `index` is occupied.
    ///
    /// The index must be in range.
    #[inline]
    pub fn is_occupied(&self, index: usize) -> (r: bool)
        requires
            self.well_formed(),
            index < self@.len(),
        ensures
            r == self@[index as int],
    {
        proof {
            lemma_index_split(index as int);
            lemma_blocks_for_bounds(self.len as nat);
            assert(64 * (index as int / 64) <= index as int);
        }
        let (block, offset) = block_and_offset(index);
        let r = (self.masks[block] >> (offset as u64)) & 1 != 0;
        proof {
            let m = self.masks@[block as int];
            let ou = offset as u64;
            assert(((m >> ou) & 1u64 != 0u64) == ((m >> ou) & 1u64 == 1u64)) by (bit_vector);
        }
        r
    }

    /// Returns the next occupied slot at or after `index`, if any.
    #[verifier::loop_isolation(false)]
    pub fn next_occupied(&self, index: usize) -> (r: Option<usize>)
        requires
            self.well_formed(),
        ensures
            match r {
                Some(j) => {
                    &&& index <= j < self@.len()
                    &&& self@[j as int]
                    &&& forall|k: int| index <= k < j ==> !self@[k]
                },
                None => forall|k: int| index <= k < self@.len() ==> !self@[k],
            },
    {
        proof {
            lemma_blocks_for_bounds(self.len as nat);
            lemma_sentinel_large();
        }
        let mut cur = index;
        while cur < self.len
            invariant
                self.well_formed(),
                index <= cur,
                forall|k: int| index <= k < cur ==> !self@[k],
            decreases self@.len() - cur,
        {
            proof {
                lemma_index_split(cur as int);
                lemma_blocks_for_bounds(self.len as nat);
                assert(64 * (cur as int / 64) <= cur as int);
            }
            let (block, offset) = block_and_offset(cur);
            let mask = self.masks[block];
            if mask != 0 {
                let mut off = offset;
                while off < bits()
                    invariant
                        self.well_formed(),
                        block == cur as int / 64,
                        offset == cur as int % 64,
                        mask == self.masks@[block as int],
                        block < self.masks@.len(),
                        offset <= off <= 64,
                        forall|o: int| offset <= o < off ==> !bit_is_set(mask, o),
                    decreases 64 - off,
                {
                    if (mask >> (off as u64)) & 1 == 1 {
                        proof {
                            lemma_block_offset(block as int, off as int);
                            assert(bit_is_set(mask, off as int));
                            assert(block as int * 64 + off < self.len) by {
                                if block as int * 64 + off >= self.len {
                                    assert(!bit_is_set(self.masks@[block as int], off as int));
                                }
                            }
                            assert forall|k: int|
                                index <= k < block as int * 64 + off implies !self@[k] by {
                                if k >= cur {
                                    lemma_index_split(k);
                                    assert(k / 64 == block as int) by {
                                        lemma_block_offset(block as int, off as int);
                                        vstd::arithmetic::div_mod::lemma_div_is_ordered(
                                            cur as int,
                                            k,
                                            64,
                                        );
                                        vstd::arithmetic::div_mod::lemma_div_is_ordered(
                                            k,
                                            block as int * 64 + off,
                                            64,
                                        );
                                    }
                                    assert(offset <= k % 64 < off);
                                    assert(!bit_is_set(mask, k % 64));
                                }
                            }
                        }
                        return Some(slot_index(block, off));
                    }
                    off = off + 1;
                }
                proof {
                    assert(forall|o: int| offset <= o < 64 ==> !bit_is_set(mask, o));
                }
            } else {
                proof {
                    lemma_zero_mask();
                    assert(forall|o: int| offset <= o < 64 ==> !bit_is_set(mask, o));
                }
            }
            proof {
                assert forall|k: int|
                    index <= k < (block as int + 1) * 64 && k < self@.len() implies !self@[k] by {
                    if cur <= k < self.len {
                        lemma_index_split(k);
                        assert(k / 64 == block as int) by {
                            vstd::arithmetic::div_mod::lemma_div_is_ordered(cur as int, k, 64);
                            lemma_block_offset(block as int + 1, 0);
                            vstd::arithmetic::div_mod::lemma_div_is_ordered(
                                k,
                                block as int * 64 + 63,
                                64,
                            );
                            lemma_block_offset(block as int, 63);
                        }
                        assert(k % 64 >= offset);
                        assert(!bit_is_set(mask, k % 64));
                    }
                }
            }
            if block + 1 >= blocks_for(self.len) {
                proof {
                    assert(self.len <= (block as int + 1) * 64);
                }
                return None;
            }
            cur = slot_index(block + 1, 0);
        }
        None
    }

    /// Returns the nearest occupied slot before `index`, if any.
    #[verifier::loop_isolation(false)]
    pub fn previous_occupied(&self, index: usize) -> (r: Option<usize>)
        requires
            self.well_formed(),
        ensures
            ({
                let hi = if index < self@.len() {
                    index as int
                } else {
                    self@.len() as int
                };
                match r {
                    Some(j) => {
                        &&& 0 <= j < hi
                        &&& self@[j as int]
                        &&& forall|k: int| j < k < hi ==> !self@[k]
                    },
                    None => forall|k: int| 0 <= k < hi ==> !self@[k],
                }
            }),
    {
        let hi = if index < self.len {
            index
        } else {
            self.len
        };
        proof {
            lemma_blocks_for_bounds(self.len as nat);
        }
        let mut bound = hi;
        while bound > 0
            invariant
                self.well_formed(),
                bound <= hi <= self@.len(),
                forall|k: int| bound <= k < hi ==> !self@[k],
            decreases bound,
        {
            proof {
                lemma_index_split(bound as int - 1);
                lemma_blocks_for_bounds(self.len as nat);
                assert(64 * ((bound as int - 1) / 64) <= bound as int - 1);
            }
            let (block, offset) = block_and_offset(bound - 1);
            let mask = self.masks[block];
            if mask != 0 {
                let mut off = offset + 1;
                while off > 0
                    invariant
                        self.well_formed(),
                        block == (bound as int - 1) / 64,
                        offset == (bound as int - 1) % 64,
                        mask == self.masks@[block as int],
                        block < self.masks@.len(),
                        off <= offset + 1,
                        forall|o: int| off <= o <= offset ==> !bit_is_set(mask, o),
                    decreases off,
                {
                    if (mask >> ((off - 1) as u64)) & 1 == 1 {
                        proof {
                            lemma_block_offset(block as int, off as int - 1);
                            let j = block as int * 64 + off - 1;
                            assert(bit_is_set(mask, off as int - 1));
                            assert(j <= bound - 1);
                            assert(j < self.len);
                            assert(self@[j]);
                            assert forall|k: int| j < k < hi implies !self@[k] by {
                                if k < bound {
                                    lemma_index_split(k);
                                    assert(k / 64 == block as int) by {
                                        vstd::arithmetic::div_mod::lemma_div_is_ordered(
                                            j,
                                            k,
                                            64,
                                        );
                                        vstd::arithmetic::div_mod::lemma_div_is_ordered(
                                            k,
                                            bound as int - 1,
                                            64,
                                        );
                                    }
                                    assert(off - 1 < k % 64 <= offset);
                                    assert(!bit_is_set(mask, k % 64));
                                }
                            }
                        }
                        return Some(slot_index(block, off - 1));
                    }
                    off = off - 1;
                }
                proof {
                    assert(forall|o: int| 0 <= o <= offset ==> !bit_is_set(mask, o));
                }
            } else {
                proof {
                    lemma_zero_mask();
                    assert(forall|o: int| 0 <= o <= offset ==> !bit_is_set(mask, o));
                }
            }
            proof {
                assert forall|k: int| block as int * 64 <= k < hi implies !self@[k] by {
                    if k < bound {
                        lemma_index_split(k);
                        assert(k / 64 == block as int) by {
                            lemma_block_offset(block as int, 0);
                            vstd::arithmetic::div_mod::lemma_div_is_ordered(
                                block as int * 64,
                                k,
                                64,
                            );
                            vstd::arithmetic::div_mod::lemma_div_is_ordered(
                                k,
                                bound as int - 1,
                                64,
                            );
                        }
                        assert(0 <= k % 64 <= offset);
                        assert(!bit_is_set(mask, k % 64));
                    }
                }
                lemma_block_offset(block as int, 0);
            }
            bound = slot_index(block, 0);
        }
        None
    }

    /// The run-time test for membership on the free-block list — being the
    /// head, or having a non-sentinel predecessor — matches the ghost list.
    proof fn lemma_linked_iff_contains(&self, block: usize)
        requires
            self.chain_well_formed(),
            self.masks@.len() <= usize::MAX / 64 + 1,
            block < self.masks@.len(),
        ensures
            (block == self.head || self.preds@[block as int] != SENTINEL)
                <==> self.list@.contains(block),
    {
        lemma_sentinel_large();
        let l = self.list@;
        if l.contains(block) {
            let k = choose|k: int| 0 <= k < l.len() && l[k] == block;
            if k == 0 {
                assert(self.head == block);
            } else {
                assert(self.preds@[block as int] == l[k - 1]);
                assert(l[k - 1] < self.masks@.len());
            }
        } else {
            assert(self.preds@[block as int] == SENTINEL);
            if l.len() > 0 {
                assert(l.contains(l[0]));
            }
        }
    }

    /// Marks the vacant slot at `index` as occupied.
    ///
    /// The slot must be in range and vacant.
    #[verifier::rlimit(60)]
    pub fn acquire_at(&mut self, index: usize)
        requires
            old(self).well_formed(),
            index < old(self)@.len(),
            !old(self)@[index as int],
        ensures
            final(self).well_formed(),
            final(self)@ == old(self)@.update(index as int, true),
            count_true(final(self)@) == count_true(old(self)@) + 1,
    {
        proof {
            lemma_index_split(index as int);
            lemma_blocks_for_bounds(old(self).len as nat);
            lemma_sentinel_large();
            lemma_count_true_lt_len(old(self)@, index as int);
            lemma_count_true_update(old(self)@, index as int, true);
        }
        let (block, offset) = block_and_offset(index);
        let m = self.masks[block];
        proof {
            assert(64 * (index as int / 64) <= index as int);
            lemma_flip_bit(m, offset as u64);
            lemma_occupancy_flip(self.masks@, self.len as nat, block as int, offset as int);
        }
        // Mark the slot as occupied in the block's bit mask.
        self.masks[block] = m ^ (1u64 << offset);
        assert(self@ == old(self)@.update(index as int, true));
        assert(block as int * 64 + offset as int == index as int);
        // If the block has just become fully occupied, remove it from the list.
        if self.masks[block] == u64::MAX {
            proof {
                self.lemma_linked_iff_contains(block);
            }
            if block == self.head || self.preds[block] != SENTINEL {
                let ghost l = self.list@;
                let ghost k = choose|k: int| 0 <= k < l.len() && l[k] == block;
                let ghost succs0 = self.succs@;
                let ghost preds0 = self.preds@;
                let ghost head0 = self.head;
                let p = self.preds[block];
                let s = self.succs[block];
                proof {
                    l.remove_ensures(k);
                    if k > 0 {
                        assert(l[k - 1] < self.masks@.len());
                    }
                    if k + 1 < l.len() {
                        assert(l[k + 1] < self.masks@.len());
                    }
                    assert(p != SENTINEL <==> k > 0);
                    assert(s != SENTINEL <==> k + 1 < l.len());
                }
                if p != SENTINEL {
                    self.succs[p] = s;
                } else {
                    self.head = s;
                }
                if s != SENTINEL {
                    self.preds[s] = p;
                }
                self.preds[block] = SENTINEL;
                self.succs[block] = SENTINEL;
                self.list = Ghost(l.remove(k));
                proof {
                    lemma_unlink_chain(l, k, head0, succs0, preds0, self.masks@.len() as int);
                    assert(self.succs@ =~= (if k == 0 {
                        succs0
                    } else {
                        succs0.update(l[k - 1] as int, s)
                    }).update(block as int, SENTINEL));
                    assert(self.preds@ =~= (if k + 1 < l.len() {
                        preds0.update(l[k + 1] as int, p)
                    } else {
                        preds0
                    }).update(block as int, SENTINEL));
                    assert(self.chain_well_formed());
                    let l2 = self.list@;
                    assert forall|k2: int|
                        0 <= k2 < l2.len() implies self.masks@[#[trigger] l2[k2] as int]
                        != u64::MAX && (l2[k2] + 1) * 64 <= self.len by {
                        let k0 = if k2 < k {
                            k2
                        } else {
                            k2 + 1
                        };
                        assert(l2[k2] == l[k0]);
                        assert(l[k0] != l[k]);
                        assert(old(self).masks@[l[k0] as int] != u64::MAX);
                    }
                    assert forall|b: int|
                        0 <= b < self.masks@.len() - 1 && #[trigger] self.masks@[b]
                            != u64::MAX implies l2.contains(b as usize) by {
                        assert(b != block as int);
                        assert(old(self).masks@[b] != u64::MAX);
                        assert(l.contains(b as usize));
                        let k2 = choose|k2: int| 0 <= k2 < l.len() && l[k2] == b as usize;
                        if k2 < k {
                            assert(l2[k2] == b as usize);
                        } else {
                            assert(l2[k2 - 1] == b as usize);
                        }
                    }
                    assert(self.list_well_formed());
                }
            } else {
                proof {
                    let l = self.list@;
                    assert forall|k2: int|
                        0 <= k2 < l.len() implies self.masks@[#[trigger] l[k2] as int] != u64::MAX
                            && (l[k2] + 1) * 64 <= self.len by {
                        assert(l.contains(l[k2]));
                        assert(l[k2] != block);
                        assert(old(self).masks@[l[k2] as int] != u64::MAX);
                    }
                    assert(self.list_well_formed());
                }
            }
        } else {
            proof {
                lemma_full_mask(m);
                let l = self.list@;
                assert forall|k2: int|
                    0 <= k2 < l.len() implies self.masks@[#[trigger] l[k2] as int] != u64::MAX && (
                l[k2] + 1) * 64 <= self.len by {
                    if l[k2] == block {
                        assert(self.masks@[block as int] != u64::MAX);
                    } else {
                        assert(old(self).masks@[l[k2] as int] != u64::MAX);
                    }
                }
                assert forall|b: int|
                    0 <= b < self.masks@.len() - 1 && #[trigger] self.masks@[b]
                        != u64::MAX implies l.contains(b as usize) by {
                    if b == block as int {
                        assert(old(self).masks@[b] != u64::MAX);
                    } else {
                        assert(old(self).masks@[b] != u64::MAX);
                    }
                }
                assert(self.list_well_formed());
            }
        }
        self.occupied = self.occupied + 1;
        proof {
            assert forall|b: int, o: int|
                0 <= b < self.masks@.len() && 0 <= o < 64 && b * 64 + o >= self.len implies !(
            #[trigger] bit_is_set(self.masks@[b], o)) by {
                if b == block as int {
                    if o == offset as int {
                        assert(b * 64 + o == index as int);
                    } else {
                        assert(bit_is_set(self.masks@[b], o) == bit_is_set(
                            old(self).masks@[b],
                            o,
                        ));
                    }
                } else {
                    assert(self.masks@[b] == old(self).masks@[b]);
                }
            }
            assert(self.well_formed());
        }
    }

    /// Finds a vacant slot, marks it as occupied, and returns its index.
    ///
    /// The slot that the next `acquire` will mark as occupied: the lowest
    /// vacant slot of the head block of the free-block list, or of the last
    /// block when the list is empty.
    pub closed spec fn acquire_index_spec(&self) -> int {
        let block = if self.head == SENTINEL {
            spec_blocks_for(self.len as nat) - 1
        } else {
            self.head as int
        };
        block * 64 + vstd::std_specs::bits::u64_trailing_zeros(!self.masks@[block])
    }

    /// At least one slot must be vacant; callers grow the bitmap first when
    /// all slots are occupied.
    pub fn acquire(&mut self) -> (index: usize)
        requires
            old(self).well_formed(),
            count_true(old(self)@) < old(self)@.len(),
        ensures
            final(self).well_formed(),
            index == old(self).acquire_index_spec(),
            index < old(self)@.len(),
            !old(self)@[index as int],
            final(self)@ == old(self)@.update(index as int, true),
            count_true(final(self)@) == count_true(old(self)@) + 1,
    {
        proof {
            lemma_blocks_for_bounds(self.len as nat);
        }
        let block = if self.head == SENTINEL {
            // The list is empty, so try the last block.
            blocks_for(self.len) - 1
        } else {
            // The list has a head. Take a vacant slot from the head block.
            self.head
        };
        let ghost i = 0int;
        proof {
            lemma_sentinel_large();
            if self.head == SENTINEL {
                i = lemma_count_true_lt_len_witness(self@);
                lemma_index_split(i);
                assert(64 * (i / 64) <= i);
                assert(i / 64 < self.masks@.len());
                assert(!bit_is_set(self.masks@[i / 64], i % 64));
                if i / 64 < self.masks@.len() - 1 {
                    // Every block before the last is fully occupied when the
                    // list is empty.
                    assert(self.masks@[i / 64] == u64::MAX) by {
                        if self.masks@[i / 64] != u64::MAX {
                            assert(self.list@.contains((i / 64) as usize));
                            let k2 = choose|k2: int|
                                0 <= k2 < self.list@.len() && self.list@[k2] == (i / 64) as usize;
                        }
                    }
                    lemma_full_mask(self.masks@[i / 64]);
                    assert(false);
                }
                assert(block == i / 64);
                lemma_full_mask(self.masks@[block as int]);
                assert(self.masks@[block as int] != u64::MAX);
            } else {
                assert(self.list@.len() > 0);
                assert(self.list@[0] == self.head);
                assert(block < self.masks@.len());
                assert(self.masks@[block as int] != u64::MAX);
                assert((block + 1) * 64 <= self.len);
            }
        }
        let mask = self.masks[block];
        // The lowest clear bit of the mask marks a vacant slot; it is always
        // a valid one, also in the last block.
        let offset = (!mask).trailing_zeros() as usize;
        proof {
            lemma_lowest_zero_bit(mask);
            lemma_block_offset(block as int, offset as int);
            if self.head == SENTINEL {
                assert(i == 64 * (i / 64) + i % 64);
                assert(offset <= i % 64) by {
                    if offset > i % 64 {
                        assert(bit_is_set(mask, i % 64));
                    }
                }
                assert(block * 64 + offset <= i);
            }
            assert(block * 64 + offset < self.len);
            assert(!self@[block as int * 64 + offset as int]);
        }
        let index = slot_index(block, offset);
        self.acquire_at(index);
        index
    }

    /// Releases the occupied slot at `index`.
    ///
    /// The slot must be in range and occupied.
    ///
    /// A block whose slots were all occupied goes back to the front of the
    /// free-block list, so a freshly freed slot is reused before any slot
    /// of an older block: releasing a slot of a full, complete block makes
    /// that very slot the one the next `acquire` takes.
    #[verifier::rlimit(60)]
    pub fn release(&mut self, index: usize)
        requires
            old(self).well_formed(),
            index < old(self)@.len(),
            old(self)@[index as int],
        ensures
            final(self).well_formed(),
            final(self)@ == old(self)@.update(index as int, false),
            count_true(final(self)@) == count_true(old(self)@) - 1,
            ({
                let b = index as int / 64;
                ((b + 1) * 64 <= old(self)@.len() && (forall|k: int|
                    b * 64 <= k < (b + 1) * 64 ==> old(self)@[k]))
                    ==> final(self).acquire_index_spec() == index as int
            }),
    {
        proof {
            lemma_index_split(index as int);
            lemma_blocks_for_bounds(old(self).len as nat);
            lemma_sentinel_large();
            lemma_count_true_ge_one(old(self)@, index as int);
            lemma_count_true_update(old(self)@, index as int, false);
        }
        let (block, offset) = block_and_offset(index);
        let m = self.masks[block];
        proof {
            assert(64 * (index as int / 64) <= index as int);
            lemma_flip_bit(m, offset as u64);
            lemma_occupancy_flip(self.masks@, self.len as nat, block as int, offset as int);
        }
        self.occupied = self.occupied - 1;
        // Mark the slot as vacant in the block's bit mask.
        self.masks[block] = m ^ (1u64 << offset);
        assert(self@ == old(self)@.update(index as int, false));
        assert(block as int * 64 + offset as int == index as int);
        assert(!bit_is_set(self.masks@[block as int], offset as int));
        proof {
            // A complete block that is fully occupied in the abstract view
            // has an all-ones mask.
            assert(((block as int + 1) * 64 <= old(self)@.len() && (forall|k: int|
                block as int * 64 <= k < (block as int + 1) * 64 ==> old(self)@[k])) ==> m
                == u64::MAX) by {
                if (block as int + 1) * 64 <= old(self)@.len() && (forall|k: int|
                    block as int * 64 <= k < (block as int + 1) * 64 ==> old(self)@[k]) {
                    assert forall|j: int| 0 <= j < 64 implies bit_is_set(m, j) by {
                        let k = block as int * 64 + j;
                        assert(old(self)@[k]);
                        lemma_block_offset(block as int, j);
                    }
                    lemma_full_mask(m);
                }
            }
        }
        // If the block was fully occupied, insert it back into the list.
        if m == u64::MAX {
            let ghost l = self.list@;
            let ghost succs0 = self.succs@;
            let ghost preds0 = self.preds@;
            let ghost head0 = self.head;
            proof {
                // A fully occupied block is never on the list.
                assert(!l.contains(block)) by {
                    if l.contains(block) {
                        let k2 = choose|k2: int| 0 <= k2 < l.len() && l[k2] == block;
                        assert(old(self).masks@[l[k2] as int] != u64::MAX);
                    }
                }
                if l.len() > 0 {
                    assert(l[0] < self.masks@.len());
                }
                assert(head0 != SENTINEL <==> l.len() > 0);
            }
            let h = self.head;
            self.succs[block] = h;
            if h != SENTINEL {
                self.preds[h] = block;
            }
            self.preds[block] = SENTINEL;
            self.head = block;
            self.list = Ghost(seq![block] + l);
            proof {
                lemma_link_front_chain(l, block, head0, succs0, preds0, self.masks@.len() as int);
                assert(self.succs@ =~= succs0.update(block as int, head0));
                assert(self.preds@ =~= (if l.len() > 0 {
                    preds0.update(l[0] as int, block)
                } else {
                    preds0
                }).update(block as int, SENTINEL));
                assert(self.chain_well_formed());
                lemma_tz_of_single_clear(self.masks@[block as int], offset as u64);
                assert(self.acquire_index_spec() == index as int);
                // The relinked block is complete: were it the partial tail
                // block, its top bit would have been clear.
                assert((block as int + 1) * 64 <= self.len) by {
                    if (block as int + 1) * 64 > self.len {
                        assert(block as int * 64 + 63 >= self.len);
                        assert(!bit_is_set(old(self).masks@[block as int], 63));
                        lemma_full_mask(m);
                    }
                }
                let l2 = self.list@;
                assert forall|k2: int|
                    0 <= k2 < l2.len() implies self.masks@[#[trigger] l2[k2] as int] != u64::MAX
                        && (l2[k2] + 1) * 64 <= self.len by {
                    if k2 == 0 {
                        assert(l2[0] == block);
                    } else {
                        assert(l2[k2] == l[k2 - 1]);
                        assert(l.contains(l[k2 - 1]));
                        assert(l[k2 - 1] != block);
                        assert(old(self).masks@[l[k2 - 1] as int] != u64::MAX);
                    }
                }
                assert forall|b: int|
                    0 <= b < self.masks@.len() - 1 && #[trigger] self.masks@[b]
                        != u64::MAX implies l2.contains(b as usize) by {
                    if b == block as int {
                        assert(l2[0] == block);
                        assert(l2.contains(block));
                    } else {
                        assert(old(self).masks@[b] != u64::MAX);
                        assert(l.contains(b as usize));
                        let k2 = choose|k2: int| 0 <= k2 < l.len() && l[k2] == b as usize;
                        assert(l2[k2 + 1] == b as usize);
                        assert(l2.contains(b as usize));
                    }
                }
                assert(self.list_well_formed());
            }
        } else {
            proof {
                let l = self.list@;
                assert forall|k2: int|
                    0 <= k2 < l.len() implies self.masks@[#[trigger] l[k2] as int] != u64::MAX && (
                l[k2] + 1) * 64 <= self.len by {
                    if l[k2] == block {
                        assert(!bit_is_set(self.masks@[block as int], offset as int));
                        lemma_full_mask(self.masks@[block as int]);
                    } else {
                        assert(old(self).masks@[l[k2] as int] != u64::MAX);
                    }
                }
                assert forall|b: int|
                    0 <= b < self.masks@.len() - 1 && #[trigger] self.masks@[b]
                        != u64::MAX implies l.contains(b as usize) by {
                    if b == block as int {
                        assert(old(self).masks@[b] == m);
                    } else {
                        assert(old(self).masks@[b] != u64::MAX);
                    }
                }
                assert(self.list_well_formed());
            }
        }
        proof {
            assert forall|b: int, o: int|
                0 <= b < self.masks@.len() && 0 <= o < 64 && b * 64 + o >= self.len implies !(
            #[trigger] bit_is_set(self.masks@[b], o)) by {
                if b == block as int {
                    if o == offset as int {
                        assert(b * 64 + o == index as int);
                    } else {
                        assert(bit_is_set(self.masks@[b], o) == bit_is_set(
                            old(self).masks@[b],
                            o,
                        ));
                    }
                } else {
                    assert(self.masks@[b] == old(self).masks@[b]);
                }
            }
            assert(self.well_formed());
        }
    }

    /// Given the required minimal additional number of slots to reserve,
    /// returns the number of slots to reserve in order to keep amortized
    /// time complexity: enough to at least double the current length.
    fn amortized_reserve(&self, additional: usize) -> (r: usize)
        requires
            self@.len() + additional <= usize::MAX,
            2 * self@.len() <= usize::MAX,
        ensures
            self@.len() + r == if self@.len() + additional >= 2 * self@.len() {
                self@.len() + additional
            } else {
                2 * self@.len() as int
            },
            r >= additional,
    {
        let len = self.len;
        let required_len = len + additional;
        let double_len = 2 * len;
        (if required_len >= double_len {
            required_len
        } else {
            double_len
        }) - len
    }

    /// Reserves at least `additional` more slots, doubling the length where
    /// that reserves more: over a run of insertions the reallocation work
    /// stays amortized constant. After the call, at least `additional` slots
    /// are vacant.
    ///
    /// Neither the doubled length nor the required length may overflow
    /// `usize`.
    pub fn reserve(&mut self, additional: usize)
        requires
            old(self).well_formed(),
            old(self)@.len() + additional <= usize::MAX,
            2 * old(self)@.len() <= usize::MAX,
        ensures
            final(self).well_formed(),
            final(self)@.len() == if old(self)@.len() + additional >= 2 * old(self)@.len() {
                old(self)@.len() + additional
            } else {
                2 * old(self)@.len() as int
            },
            final(self)@.len() >= 2 * old(self)@.len(),
            forall|k: int| 0 <= k < old(self)@.len() ==> final(self)@[k] == old(self)@[k],
            forall|k: int| old(self)@.len() <= k < final(self)@.len() ==> !final(self)@[k],
            count_true(final(self)@) == count_true(old(self)@),
            final(self)@.len() - count_true(final(self)@) >= additional,
    {
        proof {
            lemma_count_true_le_len(old(self)@);
        }
        let amortized = self.amortized_reserve(additional);
        self.reserve_exact(amortized);
    }

    /// Reserves exactly `additional` more slots. The added slots are vacant;
    /// newly added blocks, except the last, go onto the free-block list.
    ///
    /// The new total slot count must not overflow `usize`.
    #[verifier::rlimit(100)]
    #[verifier::spinoff_prover]
    #[verifier::loop_isolation(false)]
    pub fn reserve_exact(&mut self, additional: usize)
        requires
            old(self).well_formed(),
            old(self)@.len() + additional <= usize::MAX,
        ensures
            final(self).well_formed(),
            final(self)@.len() == old(self)@.len() + additional,
            forall|k: int| 0 <= k < old(self)@.len() ==> final(self)@[k] == old(self)@[k],
            forall|k: int| old(self)@.len() <= k < final(self)@.len() ==> !final(self)@[k],
            count_true(final(self)@) == count_true(old(self)@),
    {
        proof {
            lemma_blocks_for_bounds(old(self).len as nat);
            lemma_blocks_for_bounds((old(self).len + additional) as nat);
            lemma_sentinel_large();
            lemma_zero_mask();
        }
        let old_blocks = blocks_for(self.len);
        let ghost old_len = self.len as int;
        self.len = self.len + additional;
        let new_blocks = blocks_for(self.len);

        if new_blocks == old_blocks {
            // The higher unused bits of the last block are always zero, so
            // only the length needs to change.
            proof {
                lemma_len_extended_same_blocks(*old(self), *self);
            }
            return;
        }
        // The old last block is complete now, so it is no longer exempt: if
        // it has room and is not yet linked, push it onto the list.
        if old_blocks > 0 {
            let last = old_blocks - 1;
            proof {
                self.lemma_linked_iff_contains(last);
            }
            if self.masks[last] != u64::MAX && !(last == self.head || self.preds[last]
                != SENTINEL) {
                let ghost l = self.list@;
                let ghost succs0 = self.succs@;
                let ghost preds0 = self.preds@;
                let ghost head0 = self.head;
                proof {
                    if l.len() > 0 {
                        assert(l[0] < self.masks@.len());
                    }
                }
                let h = self.head;
                self.succs[last] = h;
                if h != SENTINEL {
                    self.preds[h] = last;
                }
                self.preds[last] = SENTINEL;
                self.head = last;
                self.list = Ghost(seq![last] + l);
                proof {
                    lemma_link_front_chain(
                        l,
                        last,
                        head0,
                        succs0,
                        preds0,
                        self.masks@.len() as int,
                    );
                    assert(self.succs@ =~= succs0.update(last as int, head0));
                    assert(self.preds@ =~= (if l.len() > 0 {
                        preds0.update(l[0] as int, last)
                    } else {
                        preds0
                    }).update(last as int, SENTINEL));
                    assert(self.chain_well_formed());
                    assert(self.list@[0] == last);
                    assert forall|k2: int|
                        0 <= k2 < self.list@.len() implies old(self).masks@[#[trigger] self.list@[k2] as int]
                        != u64::MAX by {
                        if k2 > 0 {
                            assert(self.list@[k2] == l[k2 - 1]);
                        }
                    }
                }
            }
        }
        // Between here and the array growth: every block with room is on the
        // list, except possibly the old last block when it is full anyway.
        let ghost l1 = self.list@;
        proof {
            let relinked = l1 != old(self).list@;
            if old_blocks > 0 && !relinked {
                self.lemma_linked_iff_contains((old_blocks - 1) as usize);
            }
            lemma_list_covers_old_blocks(
                *old(self),
                l1,
                relinked,
                self.len as int,
                old_blocks as int,
            );
        }
        let ghost succs1 = self.succs@;
        let ghost preds1 = self.preds@;
        let ghost head1 = self.head;
        // Grow the three arrays to the new block count. New masks start out
        // zero; new blocks start out unlinked.
        while self.masks.len() < new_blocks
            invariant
                old_blocks <= self.masks@.len() <= new_blocks,
                forall|j: int| 0 <= j < old_blocks ==> self.masks@[j] == old(self).masks@[j],
                forall|j: int| old_blocks <= j < self.masks@.len() ==> self.masks@[j] == 0u64,
                self.succs@ == succs1,
                self.preds@ == preds1,
                self.head == head1,
                self.list@ == l1,
                self.occupied == old(self).occupied,
                self.len == old_len + additional,
            decreases new_blocks - self.masks@.len(),
        {
            self.masks.push(0u64);
        }
        while self.succs.len() < new_blocks
            invariant
                old_blocks <= self.succs@.len() <= new_blocks,
                forall|j: int| 0 <= j < old_blocks ==> self.succs@[j] == succs1[j],
                forall|j: int| old_blocks <= j < self.succs@.len() ==> self.succs@[j] == SENTINEL,
                self.masks@.len() == new_blocks,
                forall|j: int| 0 <= j < old_blocks ==> self.masks@[j] == old(self).masks@[j],
                forall|j: int| old_blocks <= j < new_blocks ==> self.masks@[j] == 0u64,
                self.preds@ == preds1,
                self.head == head1,
                self.list@ == l1,
                self.occupied == old(self).occupied,
                self.len == old_len + additional,
            decreases new_blocks - self.succs@.len(),
        {
            self.succs.push(SENTINEL);
        }
        while self.preds.len() < new_blocks
            invariant
                old_blocks <= self.preds@.len() <= new_blocks,
                forall|j: int| 0 <= j < old_blocks ==> self.preds@[j] == preds1[j],
                forall|j: int| old_blocks <= j < self.preds@.len() ==> self.preds@[j] == SENTINEL,
                self.masks@.len() == new_blocks,
                forall|j: int| 0 <= j < old_blocks ==> self.masks@[j] == old(self).masks@[j],
                forall|j: int| old_blocks <= j < new_blocks ==> self.masks@[j] == 0u64,
                self.succs@.len() == new_blocks,
                forall|j: int| 0 <= j < old_blocks ==> self.succs@[j] == succs1[j],
                forall|j: int| old_blocks <= j < new_blocks ==> self.succs@[j] == SENTINEL,
                self.head == head1,
                self.list@ == l1,
                self.occupied == old(self).occupied,
                self.len == old_len + additional,
            decreases new_blocks - self.preds@.len(),
        {
            self.preds.push(SENTINEL);
        }
        proof {
            lemma_extend_chain(
                l1,
                head1,
                succs1,
                preds1,
                old_blocks as int,
                self.succs@,
                self.preds@,
                new_blocks as int,
            );
        }
        // If at least two blocks were added, link all new blocks except the
        // very last into a fresh run at the front of the list. The very last
        // new block stays the implicit fallback.
        if old_blocks + 2 <= new_blocks {
            let ghost succs2 = self.succs@;
            let ghost preds2 = self.preds@;
            let ghost head2 = self.head;
            let h = self.head;
            proof {
                if l1.len() > 0 {
                    assert(l1[0] < old_blocks);
                }
                assert(h != SENTINEL <==> l1.len() > 0);
            }
            self.succs[new_blocks - 2] = h;
            if h != SENTINEL {
                self.preds[h] = new_blocks - 2;
            }
            self.preds[old_blocks] = SENTINEL;
            self.head = old_blocks;
            let mut b = old_blocks;
            while b < new_blocks - 2
                invariant
                    old_blocks <= b <= new_blocks - 2,
                    self.succs@.len() == new_blocks,
                    self.preds@.len() == new_blocks,
                    forall|j: int| old_blocks <= j < b ==> self.succs@[j] == (j + 1) as usize,
                    self.succs@[new_blocks - 2] == h,
                    forall|j: int|
                        0 <= j < new_blocks && !(old_blocks <= j <= new_blocks - 2)
                            ==> self.succs@[j] == succs2[j],
                    self.preds@[old_blocks as int] == SENTINEL,
                    forall|j: int| old_blocks < j <= b ==> self.preds@[j] == (j - 1) as usize,
                    l1.len() > 0 ==> self.preds@[l1[0] as int] == (new_blocks - 2) as usize,
                    forall|j: int|
                        0 <= j < new_blocks && !(old_blocks <= j <= new_blocks - 2) && (l1.len()
                            == 0 || j != l1[0] as int) ==> self.preds@[j] == preds2[j],
                    self.masks@.len() == new_blocks,
                    self.head == old_blocks,
                    self.list@ == l1,
                    self.occupied == old(self).occupied,
                    self.len == old_len + additional,
                    forall|j: int| 0 <= j < old_blocks ==> self.masks@[j] == old(self).masks@[j],
                    forall|j: int| old_blocks <= j < new_blocks ==> self.masks@[j] == 0u64,
                decreases new_blocks - 2 - b,
            {
                self.succs[b] = b + 1;
                self.preds[b + 1] = b;
                b = b + 1;
            }
            self.list = Ghost(
                Seq::new((new_blocks - 1 - old_blocks) as nat, |j: int| (old_blocks + j) as usize)
                    + l1,
            );
            proof {
                lemma_link_run_chain(
                    l1,
                    old_blocks as int,
                    new_blocks as int - 2,
                    head2,
                    succs2,
                    preds2,
                    self.succs@,
                    self.preds@,
                    new_blocks as int,
                );
                assert(self.chain_well_formed());
            }
        }
        // Re-establish the full invariant for the grown bitmap.
        proof {
            lemma_grown_well_formed(
                *old(self),
                *self,
                old_blocks as int,
                new_blocks as int,
                l1,
            );
        }
    }
}

/// Extending the slot count without changing the block count preserves the
/// invariant: the added slots sit in the unused upper bits of the last
/// block, which are clear.
proof fn lemma_len_extended_same_blocks(pre: Bitmap, post: Bitmap)
    requires
        pre.well_formed(),
        post.masks@ == pre.masks@,
        post.succs@ == pre.succs@,
        post.preds@ == pre.preds@,
        post.head == pre.head,
        post.list@ == pre.list@,
        post.occupied == pre.occupied,
        pre.len <= post.len,
        spec_blocks_for(post.len as nat) == spec_blocks_for(pre.len as nat),
    ensures
        post.well_formed(),
        post@.len() == post.len,
        forall|k: int| 0 <= k < pre.len ==> #[trigger] post@[k] == pre@[k],
        forall|k: int| pre.len <= k < post.len ==> !(#[trigger] post@[k]),
        count_true(post@) == count_true(pre@),
{
    lemma_blocks_for_bounds(post.len as nat);
    assert forall|k: int| pre.len <= k < post.len implies !(#[trigger] post@[k]) by {
        lemma_index_split(k);
        assert(64 * (k / 64) <= k);
        assert(!bit_is_set(pre.masks@[k / 64], k % 64));
    }
    assert forall|k: int| 0 <= k < pre.len implies #[trigger] post@[k] == pre@[k] by {
        lemma_index_split(k);
    }
    lemma_count_true_extend_false(pre@, post@);
    assert(post.well_formed());
}

/// After the old last block has been dealt with — linked if it has room —
/// the list covers every old block with room, and all listed blocks are
/// old, complete with respect to the new length, and not full.
proof fn lemma_list_covers_old_blocks(
    pre: Bitmap,
    l1: Seq<usize>,
    relinked: bool,
    new_len: int,
    old_blocks: int,
)
    requires
        pre.well_formed(),
        old_blocks == spec_blocks_for(pre.len as nat),
        old_blocks * 64 <= new_len,
        l1 == if relinked {
            seq![(old_blocks - 1) as usize] + pre.list@
        } else {
            pre.list@
        },
        relinked ==> old_blocks > 0 && pre.masks@[old_blocks - 1] != u64::MAX,
        !relinked && old_blocks > 0 ==> (pre.masks@[old_blocks - 1] == u64::MAX
            || pre.list@.contains((old_blocks - 1) as usize)),
    ensures
        forall|b: int|
            0 <= b < old_blocks && #[trigger] pre.masks@[b] != u64::MAX ==> l1.contains(b as usize),
        forall|k2: int|
            0 <= k2 < l1.len() ==> pre.masks@[#[trigger] l1[k2] as int] != u64::MAX && (l1[k2] + 1)
                * 64 <= new_len && l1[k2] < old_blocks,
{
    lemma_blocks_for_bounds(pre.len as nat);
    let l = pre.list@;
    assert forall|b: int|
        0 <= b < old_blocks && #[trigger] pre.masks@[b] != u64::MAX implies l1.contains(
        b as usize,
    ) by {
        if b < old_blocks - 1 {
            assert(l.contains(b as usize));
            let k2 = choose|k2: int| 0 <= k2 < l.len() && l[k2] == b as usize;
            if relinked {
                assert(l1[k2 + 1] == b as usize);
            }
        } else {
            if relinked {
                assert(l1[0] == (old_blocks - 1) as usize);
            }
        }
        assert(l1.contains(b as usize));
    }
    assert forall|k2: int|
        0 <= k2 < l1.len() implies pre.masks@[#[trigger] l1[k2] as int] != u64::MAX && (l1[k2] + 1)
            * 64 <= new_len && l1[k2] < old_blocks by {
        if relinked && k2 == 0 {
            assert(l1[0] == (old_blocks - 1) as usize);
        } else {
            let e = if relinked {
                l[k2 - 1]
            } else {
                l[k2]
            };
            assert(l1[k2] == e);
            assert(pre.masks@[e as int] != u64::MAX && (e + 1) * 64 <= pre.len);
            assert(e < old_blocks);
        }
    }
}

/// After growing the block arrays — masks preserved below `old_blocks`, new
/// masks zero, new blocks linked as the chain describes — the whole bitmap
/// invariant holds again, the old occupancy is preserved, and the added
/// slots are vacant.
proof fn lemma_grown_well_formed(
    pre: Bitmap,
    post: Bitmap,
    old_blocks: int,
    new_blocks: int,
    l1: Seq<usize>,
)
    requires
        pre.well_formed(),
        old_blocks == spec_blocks_for(pre.len as nat),
        new_blocks == spec_blocks_for(post.len as nat),
        old_blocks < new_blocks,
        pre.len <= post.len,
        post.masks@.len() == new_blocks,
        post.succs@.len() == new_blocks,
        post.preds@.len() == new_blocks,
        new_blocks <= usize::MAX / 64 + 1,
        forall|j: int| 0 <= j < old_blocks ==> #[trigger] post.masks@[j] == pre.masks@[j],
        forall|j: int| old_blocks <= j < new_blocks ==> #[trigger] post.masks@[j] == 0u64,
        post.occupied == pre.occupied,
        post.chain_well_formed(),
        post.list@ == if old_blocks + 2 <= new_blocks {
            Seq::new((new_blocks - 1 - old_blocks) as nat, |j: int| (old_blocks + j) as usize) + l1
        } else {
            l1
        },
        forall|k2: int|
            0 <= k2 < l1.len() ==> pre.masks@[#[trigger] l1[k2] as int] != u64::MAX && (l1[k2] + 1)
                * 64 <= post.len && l1[k2] < old_blocks,
        forall|b: int|
            0 <= b < old_blocks && #[trigger] pre.masks@[b] != u64::MAX ==> l1.contains(b as usize),
    ensures
        post.well_formed(),
        post@.len() == post.len,
        forall|k: int| 0 <= k < pre.len ==> #[trigger] post@[k] == pre@[k],
        forall|k: int| pre.len <= k < post.len ==> !(#[trigger] post@[k]),
        count_true(post@) == count_true(pre@),
{
    lemma_blocks_for_bounds(pre.len as nat);
    lemma_blocks_for_bounds(post.len as nat);
    lemma_zero_mask();
    let old_len = pre.len as int;
    let nv = post@;
    assert forall|k: int| old_len <= k < nv.len() implies !nv[k] by {
        lemma_index_split(k);
        assert(64 * (k / 64) <= k);
        if k / 64 < old_blocks {
            assert(post.masks@[k / 64] == pre.masks@[k / 64]);
            assert(!bit_is_set(pre.masks@[k / 64], k % 64));
        } else {
            assert(post.masks@[k / 64] == 0u64);
        }
    }
    assert forall|k: int| 0 <= k < old_len implies nv[k] == pre@[k] by {
        lemma_index_split(k);
        assert(64 * (k / 64) <= k);
        assert(k / 64 < old_blocks);
        assert(post.masks@[k / 64] == pre.masks@[k / 64]);
    }
    lemma_count_true_extend_false(pre@, nv);
    assert forall|bb: int, o: int|
        0 <= bb < post.masks@.len() && 0 <= o < 64 && bb * 64 + o >= post.len implies !(
    #[trigger] bit_is_set(post.masks@[bb], o)) by {
        if bb < old_blocks {
            assert(post.masks@[bb] == pre.masks@[bb]);
            assert(bb * 64 + o >= old_len);
        } else {
            assert(post.masks@[bb] == 0u64);
        }
    }
    let l2 = post.list@;
    assert forall|k2: int|
        0 <= k2 < l2.len() implies post.masks@[#[trigger] l2[k2] as int] != u64::MAX && (l2[k2] + 1)
            * 64 <= post.len by {
        if old_blocks + 2 <= new_blocks {
            let rn = new_blocks - 1 - old_blocks;
            if k2 < rn {
                assert(l2[k2] == (old_blocks + k2) as usize);
                assert(post.masks@[l2[k2] as int] == 0u64);
                assert((l2[k2] + 1) * 64 <= (new_blocks - 1) * 64);
                assert(64 * (new_blocks - 1) < post.len);
            } else {
                assert(l2[k2] == l1[k2 - rn]);
                assert(l1[k2 - rn] < old_blocks);
                assert(post.masks@[l1[k2 - rn] as int] == pre.masks@[l1[k2 - rn] as int]);
            }
        } else {
            assert(l2[k2] == l1[k2]);
            assert(l1[k2] < old_blocks);
            assert(post.masks@[l1[k2] as int] == pre.masks@[l1[k2] as int]);
        }
    }
    assert forall|bb: int|
        0 <= bb < post.masks@.len() - 1 && #[trigger] post.masks@[bb] != u64::MAX implies
        l2.contains(bb as usize) by {
        if bb < old_blocks {
            assert(post.masks@[bb] == pre.masks@[bb]);
            assert(l1.contains(bb as usize));
            if old_blocks + 2 <= new_blocks {
                let rn = new_blocks - 1 - old_blocks;
                let k2 = choose|k2: int| 0 <= k2 < l1.len() && l1[k2] == bb as usize;
                assert(l2[rn + k2] == bb as usize);
            }
        } else {
            assert(old_blocks + 2 <= new_blocks);
            assert(l2[bb - old_blocks] == bb as usize);
        }
    }
    assert(post.well_formed());
}

/// Iterates over all occupied slots of a `Bitmap`, in ascending index
/// order.
pub struct Iter<'a> {
    /// The bitmap to iterate over.
    bitmap: &'a Bitmap,
    /// Index of the current slot: every occupied slot below it has been
    /// yielded already.
    index: usize,
}

impl<'a> Iter<'a> {
    /// The occupancy sequence being walked.
    pub closed spec fn slots(&self) -> Seq<bool> {
        self.bitmap@
    }

    /// The index the scan continues from.
    pub closed spec fn cursor(&self) -> int {
        self.index as int
    }

    /// The underlying bitmap is well formed and the cursor is in range.
    pub closed spec fn well_formed(&self) -> bool {
        self.bitmap.well_formed() && self.index <= self.bitmap@.len()
    }

    /// Yields the next occupied slot index: the smallest occupied index at
    /// or after the cursor, or `None` when none is left.
    pub fn next(&mut self) -> (r: Option<usize>)
        requires
            old(self).well_formed(),
        ensures
            final(self).well_formed(),
            final(self).slots() == old(self).slots(),
            match r {
                Some(j) => {
                    &&& old(self).cursor() <= j < old(self).slots().len()
                    &&& old(self).slots()[j as int]
                    &&& forall|k: int| old(self).cursor() <= k < j ==> !old(self).slots()[k]
                    &&& final(self).cursor() == j + 1
                },
                None => {
                    &&& forall|k: int|
                        old(self).cursor() <= k < old(self).slots().len() ==> !old(self).slots()[k]
                    &&& final(self).cursor() == old(self).cursor()
                },
            },
    {
        match self.bitmap.next_occupied(self.index) {
            Some(index) => {
                self.index = index + 1;
                Some(index)
            },
            None => None,
        }
    }

    /// Bounds on the number of slots still to be yielded: at most the
    /// number of slots not yet scanned.
    #[inline]
    pub fn size_hint(&self) -> (r: (usize, Option<usize>))
        requires
            self.well_formed(),
        ensures
            r.0 == 0,
            r.1 == Some((self.slots().len() - self.cursor()) as usize),
    {
        let low: usize = 0;
        let high = self.bitmap.len() - self.index;
        (low, Some(high))
    }

    /// The total number of occupied slots in the underlying bitmap.
    #[inline]
    pub fn count(self) -> (r: usize)
        requires
            self.well_formed(),
        ensures
            r == count_true(self.slots()),
    {
        self.bitmap.occupied()
    }
}

/// An all-zero mask has no set bit.
proof fn lemma_zero_mask()
    ensures
        forall|o: int| !bit_is_set(0u64, o),
{
    assert forall|o: int| !bit_is_set(0u64, o) by {
        if 0 <= o < 64 {
            let ou = o as u64;
            assert((0u64 >> ou) & 1u64 == 0u64) by (bit_vector);
        }
    }
}

/// `count_true` never exceeds the sequence length.
pub proof fn lemma_count_true_le_len(s: Seq<bool>)
    ensures
        count_true(s) <= s.len(),
    decreases s.len(),
{
    if s.len() > 0 {
        lemma_count_true_le_len(s.drop_last());
    }
}

/// A `false` entry keeps `count_true` strictly below the length.
pub proof fn lemma_count_true_lt_len(s: Seq<bool>, i: int)
    requires
        0 <= i < s.len(),
        !s[i],
    ensures
        count_true(s) < s.len(),
    decreases s.len(),
{
    if i == s.len() - 1 {
        lemma_count_true_le_len(s.drop_last());
    } else {
        lemma_count_true_lt_len(s.drop_last(), i);
    }
}

/// A `true` entry keeps `count_true` above zero.
pub proof fn lemma_count_true_ge_one(s: Seq<bool>, i: int)
    requires
        0 <= i < s.len(),
        s[i],
    ensures
        count_true(s) >= 1,
    decreases s.len(),
{
    if i < s.len() - 1 {
        lemma_count_true_ge_one(s.drop_last(), i);
    }
}

/// If `count_true` falls short of the length, some entry is `false`.
pub proof fn lemma_count_true_lt_len_witness(s: Seq<bool>) -> (i: int)
    requires
        count_true(s) < s.len(),
    ensures
        0 <= i < s.len(),
        !s[i],
    decreases s.len(),
{
    if !s.last() {
        s.len() - 1
    } else {
        lemma_count_true_lt_len_witness(s.drop_last())
    }
}

/// Updating one entry changes `count_true` by exactly the difference between
/// the new and the old entry.
pub proof fn lemma_count_true_update(s: Seq<bool>, i: int, v: bool)
    requires
        0 <= i < s.len(),
    ensures
        count_true(s.update(i, v)) == count_true(s) - (if s[i] {
            1int
        } else {
            0int
        }) + (if v {
            1int
        } else {
            0int
        }),
    decreases s.len(),
{
    let s2 = s.update(i, v);
    if i == s.len() - 1 {
        assert(s2.drop_last() =~= s.drop_last());
    } else {
        assert(s2.drop_last() =~= s.drop_last().update(i, v));
        lemma_count_true_update(s.drop_last(), i, v);
    }
}

/// Extending a sequence with `false` entries leaves `count_true` unchanged.
pub proof fn lemma_count_true_extend_false(s: Seq<bool>, s2: Seq<bool>)
    requires
        s.len() <= s2.len(),
        forall|i: int| 0 <= i < s.len() ==> s2[i] == s[i],
        forall|i: int| s.len() <= i < s2.len() ==> !s2[i],
    ensures
        count_true(s2) == count_true(s),
    decreases s2.len(),
{
    if s2.len() == s.len() {
        assert(s2 =~= s);
    } else {
        lemma_count_true_extend_false(s, s2.drop_last());
    }
}

/// Decomposes a slot index into its block and offset.
proof fn lemma_index_split(i: int)
    requires
        0 <= i,
    ensures
        i == 64 * (i / 64) + i % 64,
        0 <= i % 64 < 64,
        0 <= i / 64,
{
    vstd::arithmetic::div_mod::lemma_fundamental_div_mod(i, 64);
    vstd::arithmetic::div_mod::lemma_mod_division_less_than_divisor(i, 64);
    vstd::arithmetic::div_mod::lemma_div_pos_is_pos(i, 64);
}

/// A block index and an offset determine the slot index's block and offset.
proof fn lemma_block_offset(b: int, o: int)
    requires
        0 <= b,
        0 <= o < 64,
    ensures
        (b * 64 + o) / 64 == b,
        (b * 64 + o) % 64 == o,
{
    vstd::arithmetic::div_mod::lemma_div_multiples_vanish_fancy(b, o, 64);
    vstd::arithmetic::div_mod::lemma_mod_multiples_vanish(b, o, 64);
    assert((b * 64 + o) % 64 == (64 * b + o) % 64) by (nonlinear_arith);
    assert(o % 64 == o) by (nonlinear_arith)
        requires
            0 <= o < 64,
    ;
}

/// Bounds of the block count for a given number of slots.
proof fn lemma_blocks_for_bounds(len: nat)
    ensures
        64 * spec_blocks_for(len) >= len,
        len > 0 ==> spec_blocks_for(len) >= 1 && 64 * (spec_blocks_for(len) - 1) < len,
        len <= usize::MAX ==> spec_blocks_for(len) <= usize::MAX / 64 + 1,
{
    let q = len / 64;
    let r = len % 64;
    vstd::arithmetic::div_mod::lemma_fundamental_div_mod(len as int, 64);
    vstd::arithmetic::div_mod::lemma_mod_division_less_than_divisor(len as int, 64);
    if len <= usize::MAX {
        vstd::arithmetic::div_mod::lemma_div_is_ordered(len as int, usize::MAX as int, 64);
    }
}

/// Block counts stay strictly below the sentinel index.
proof fn lemma_sentinel_large()
    ensures
        usize::MAX / 64 + 1 < usize::MAX,
{
    vstd::arithmetic::div_mod::lemma_fundamental_div_mod(usize::MAX as int, 64);
    assert(64 * (usize::MAX as int / 64) + 63 >= usize::MAX as int ==> usize::MAX as int / 64 + 1
        < usize::MAX as int) by (nonlinear_arith)
        requires
            usize::MAX >= 0xffff_ffff,
    ;
}

/// Flipping bit `o` of a mask changes exactly that bit.
proof fn lemma_flip_bit(m: u64, o: u64)
    requires
        o < 64,
    ensures
        forall|j: int| 0 <= j < 64 && j != o ==> bit_is_set(m ^ (1u64 << o), j) == bit_is_set(m, j),
        bit_is_set(m ^ (1u64 << o), o as int) == !bit_is_set(m, o as int),
{
    assert forall|j: int| 0 <= j < 64 && j != o implies bit_is_set(m ^ (1u64 << o), j)
        == bit_is_set(m, j) by {
        let ju = j as u64;
        assert(ju < 64 && ju != o ==> ((m ^ (1u64 << o)) >> ju) & 1u64 == (m >> ju) & 1u64)
            by (bit_vector);
    }
    assert(o < 64 ==> (((m ^ (1u64 << o)) >> o) & 1u64 == 1u64) == !((m >> o) & 1u64 == 1u64))
        by (bit_vector);
}

/// A mask with a clear bit is not all ones, and conversely.
proof fn lemma_full_mask(m: u64)
    ensures
        m == u64::MAX <==> (forall|j: int| 0 <= j < 64 ==> bit_is_set(m, j)),
{
    if m == u64::MAX {
        assert forall|j: int| 0 <= j < 64 implies bit_is_set(m, j) by {
            let ju = j as u64;
            assert(ju < 64 ==> (0xffff_ffff_ffff_ffffu64 >> ju) & 1u64 == 1u64) by (bit_vector);
        }
    } else {
        let tzu: u64 = vstd::std_specs::bits::u64_trailing_zeros(!m) as u64;
        axiom_u64_trailing_zeros(!m);
        assert(!m != 0u64) by (bit_vector)
            requires
                m != u64::MAX,
        ;
        assert((m >> tzu) & 1u64 == 0u64) by (bit_vector)
            requires
                tzu < 64 && ((!m) >> tzu) & 1u64 == 1u64,
        ;
        assert(!bit_is_set(m, tzu as int));
    }
}

/// Flipping one bit of one mask word flips exactly one entry of the
/// described occupancy sequence.
proof fn lemma_occupancy_flip(masks: Seq<u64>, len: nat, b: int, o: int)
    requires
        0 <= b < masks.len(),
        0 <= o < 64,
        len <= 64 * masks.len(),
        b * 64 + o < len,
    ensures
        occupancy(masks.update(b, masks[b] ^ (1u64 << (o as u64))), len) == occupancy(
            masks,
            len,
        ).update(b * 64 + o, !bit_is_set(masks[b], o)),
{
    let m2 = masks[b] ^ (1u64 << (o as u64));
    let masks2 = masks.update(b, m2);
    let idx = b * 64 + o;
    lemma_flip_bit(masks[b], o as u64);
    lemma_block_offset(b, o);
    assert forall|i: int| 0 <= i < len implies occupancy(masks2, len)[i] == occupancy(
        masks,
        len,
    ).update(idx, !bit_is_set(masks[b], o))[i] by {
        lemma_index_split(i);
        assert(i / 64 < masks.len());
        if i / 64 == b {
            if i % 64 == o {
                assert(i == idx);
            } else {
                assert(i != idx) by {
                    if i == idx {
                        lemma_block_offset(b, o);
                    }
                }
            }
        } else {
            assert(i != idx) by {
                if i == idx {
                    lemma_block_offset(b, o);
                }
            }
            assert(masks2[i / 64] == masks[i / 64]);
        }
    }
    assert(occupancy(masks2, len) =~= occupancy(masks, len).update(idx, !bit_is_set(masks[b], o)));
}

/// Unlinking the block at position `k` of a well-formed chain — rerouting
/// its neighbours around it and clearing its own neighbour fields — leaves a
/// well-formed chain over the remaining blocks.
proof fn lemma_unlink_chain(
    l: Seq<usize>,
    k: int,
    head0: usize,
    succs0: Seq<usize>,
    preds0: Seq<usize>,
    nblocks: int,
)
    requires
        chain_ok(l, head0, succs0, preds0, nblocks),
        succs0.len() == nblocks,
        preds0.len() == nblocks,
        nblocks <= usize::MAX / 64 + 1,
        0 <= k < l.len(),
    ensures
        ({
            let block = l[k] as int;
            let p: usize = if k == 0 {
                SENTINEL
            } else {
                l[k - 1]
            };
            let s: usize = if k + 1 < l.len() {
                l[k + 1]
            } else {
                SENTINEL
            };
            let head1 = if k == 0 {
                s
            } else {
                head0
            };
            let succs1 = (if k == 0 {
                succs0
            } else {
                succs0.update(l[k - 1] as int, s)
            }).update(block, SENTINEL);
            let preds1 = (if k + 1 < l.len() {
                preds0.update(l[k + 1] as int, p)
            } else {
                preds0
            }).update(block, SENTINEL);
            chain_ok(l.remove(k), head1, succs1, preds1, nblocks)
        }),
{
    lemma_sentinel_large();
    l.remove_ensures(k);
    let l2 = l.remove(k);
    let block = l[k] as int;
    let p: usize = if k == 0 {
        SENTINEL
    } else {
        l[k - 1]
    };
    let s: usize = if k + 1 < l.len() {
        l[k + 1]
    } else {
        SENTINEL
    };
    let head1 = if k == 0 {
        s
    } else {
        head0
    };
    let succs1 = (if k == 0 {
        succs0
    } else {
        succs0.update(l[k - 1] as int, s)
    }).update(block, SENTINEL);
    let preds1 = (if k + 1 < l.len() {
        preds0.update(l[k + 1] as int, p)
    } else {
        preds0
    }).update(block, SENTINEL);
    assert forall|j: int| 0 <= j < l2.len() implies #[trigger] l2[j] < nblocks by {
        if j < k {
            assert(l2[j] == l[j]);
        } else {
            assert(l2[j] == l[j + 1]);
        }
    }
    assert forall|i: int, j: int| #![trigger l2[i], l2[j]] 0 <= i < j < l2.len() implies l2[i]
        != l2[j] by {
        let i0 = if i < k {
            i
        } else {
            i + 1
        };
        let j0 = if j < k {
            j
        } else {
            j + 1
        };
        assert(l2[i] == l[i0] && l2[j] == l[j0]);
        assert(l[i0] != l[j0]);
    }
    assert forall|j: int| 0 <= j < l2.len() implies #[trigger] succs1[l2[j] as int] == (if j + 1
        < l2.len() {
        l2[j + 1] as usize
    } else {
        SENTINEL
    }) by {
        if j < k - 1 {
            assert(l2[j] == l[j] && l2[j + 1] == l[j + 1]);
            assert(l[j] != l[k] && l[j] != l[k - 1]);
            assert(succs1[l[j] as int] == succs0[l[j] as int]);
        } else if j == k - 1 {
            assert(l2[j] == l[k - 1]);
            assert(l[k - 1] != l[k]);
            assert(succs1[l[k - 1] as int] == s);
            if j + 1 < l2.len() {
                assert(l2[j + 1] == l[k + 1]);
            }
        } else {
            assert(l2[j] == l[j + 1]);
            assert(l[j + 1] != l[k]);
            if k > 0 {
                assert(l[j + 1] != l[k - 1]);
            }
            assert(succs1[l[j + 1] as int] == succs0[l[j + 1] as int]);
            if j + 1 < l2.len() {
                assert(l2[j + 1] == l[j + 2]);
            }
        }
    }
    assert forall|j: int| 0 <= j < l2.len() implies #[trigger] preds1[l2[j] as int] == (if j == 0 {
        SENTINEL
    } else {
        l2[j - 1] as usize
    }) by {
        if j < k {
            assert(l2[j] == l[j]);
            assert(l[j] != l[k]);
            if k + 1 < l.len() {
                assert(l[j] != l[k + 1]);
            }
            assert(preds1[l[j] as int] == preds0[l[j] as int]);
            if j > 0 {
                assert(l2[j - 1] == l[j - 1]);
            }
        } else if j == k {
            assert(l2[j] == l[k + 1]);
            assert(l[k + 1] != l[k]);
            assert(preds1[l[k + 1] as int] == p);
            if k > 0 {
                assert(l2[j - 1] == l[k - 1]);
            }
        } else {
            assert(l2[j] == l[j + 1]);
            assert(l[j + 1] != l[k]);
            if k + 1 < l.len() {
                assert(l[j + 1] != l[k + 1]);
            }
            assert(preds1[l[j + 1] as int] == preds0[l[j + 1] as int]);
            assert(l2[j - 1] == l[j]);
        }
    }
    assert forall|b: int| 0 <= b < nblocks && !l2.contains(b as usize) implies preds1[b] == SENTINEL
        && succs1[b] == SENTINEL by {
        assert(l[k] < nblocks);
        if b == block {
            assert(preds1[b] == SENTINEL);
            assert(succs1[b] == SENTINEL);
        } else {
            assert(!l.contains(b as usize)) by {
                if l.contains(b as usize) {
                    let k2 = choose|k2: int| 0 <= k2 < l.len() && l[k2] == b as usize;
                    if k2 == k {
                        assert(b == block);
                    } else if k2 < k {
                        assert(l2[k2] == b as usize);
                        assert(l2.contains(b as usize));
                    } else {
                        assert(l2[k2 - 1] == b as usize);
                        assert(l2.contains(b as usize));
                    }
                }
            }
            assert(preds0[b] == SENTINEL && succs0[b] == SENTINEL);
            if k > 0 {
                assert(l.contains(l[k - 1]));
                assert(b != l[k - 1] as int);
            }
            if k + 1 < l.len() {
                assert(l.contains(l[k + 1]));
                assert(b != l[k + 1] as int);
            }
            assert(preds1[b] == preds0[b]);
            assert(succs1[b] == succs0[b]);
        }
    }
}

/// Linking a block at the front of a well-formed chain — pointing it at the
/// old head and making it the new head — leaves a well-formed chain.
proof fn lemma_link_front_chain(
    l: Seq<usize>,
    block: usize,
    head0: usize,
    succs0: Seq<usize>,
    preds0: Seq<usize>,
    nblocks: int,
)
    requires
        chain_ok(l, head0, succs0, preds0, nblocks),
        succs0.len() == nblocks,
        preds0.len() == nblocks,
        nblocks <= usize::MAX / 64 + 1,
        block < nblocks,
        !l.contains(block),
    ensures
        ({
            let succs1 = succs0.update(block as int, head0);
            let preds1 = (if l.len() > 0 {
                preds0.update(l[0] as int, block)
            } else {
                preds0
            }).update(block as int, SENTINEL);
            chain_ok(seq![block] + l, block, succs1, preds1, nblocks)
        }),
{
    lemma_sentinel_large();
    let l2 = seq![block] + l;
    let succs1 = succs0.update(block as int, head0);
    let preds1 = (if l.len() > 0 {
        preds0.update(l[0] as int, block)
    } else {
        preds0
    }).update(block as int, SENTINEL);
    assert(l2[0] == block);
    assert(forall|j: int| 1 <= j < l2.len() ==> #[trigger] l2[j] == l[j - 1]);
    if l.len() > 0 {
        assert(l.contains(l[0]));
        assert(l[0] != block);
    }
    assert forall|j: int| 0 <= j < l2.len() implies #[trigger] succs1[l2[j] as int] == (if j + 1
        < l2.len() {
        l2[j + 1] as usize
    } else {
        SENTINEL
    }) by {
        if j == 0 {
            assert(succs1[block as int] == head0);
        } else {
            assert(l2[j] == l[j - 1]);
            assert(l.contains(l[j - 1]));
            assert(l[j - 1] != block);
            assert(succs1[l[j - 1] as int] == succs0[l[j - 1] as int]);
        }
    }
    assert forall|j: int| 0 <= j < l2.len() implies #[trigger] preds1[l2[j] as int] == (if j == 0 {
        SENTINEL
    } else {
        l2[j - 1] as usize
    }) by {
        if j == 0 {
            assert(preds1[block as int] == SENTINEL);
        } else if j == 1 {
            assert(l2[j] == l[0]);
            assert(preds1[l[0] as int] == block);
        } else {
            assert(l2[j] == l[j - 1]);
            assert(l.contains(l[j - 1]));
            assert(l[j - 1] != block);
            assert(l[j - 1] != l[0]);
            assert(preds1[l[j - 1] as int] == preds0[l[j - 1] as int]);
            assert(l2[j - 1] == l[j - 2]);
        }
    }
    assert forall|b: int| 0 <= b < nblocks && !l2.contains(b as usize) implies preds1[b] == SENTINEL
        && succs1[b] == SENTINEL by {
        assert(l2[0] == block);
        assert(b != block as int) by {
            if b == block as int {
                assert(l2.contains(block));
            }
        }
        assert(!l.contains(b as usize)) by {
            if l.contains(b as usize) {
                let k2 = choose|k2: int| 0 <= k2 < l.len() && l[k2] == b as usize;
                assert(l2[k2 + 1] == b as usize);
                assert(l2.contains(b as usize));
            }
        }
        assert(preds0[b] == SENTINEL && succs0[b] == SENTINEL);
        if l.len() > 0 {
            assert(b != l[0] as int);
        }
    }
}

/// Extending the neighbour arrays with sentinel entries, without touching
/// the existing ones, preserves a well-formed chain.
proof fn lemma_extend_chain(
    l: Seq<usize>,
    head: usize,
    succs0: Seq<usize>,
    preds0: Seq<usize>,
    nb0: int,
    succs1: Seq<usize>,
    preds1: Seq<usize>,
    nb1: int,
)
    requires
        chain_ok(l, head, succs0, preds0, nb0),
        nb0 <= nb1,
        succs1.len() == nb1,
        preds1.len() == nb1,
        forall|j: int|
            #![trigger succs1[j]]
            #![trigger preds1[j]]
            0 <= j < nb0 ==> succs1[j] == succs0[j] && preds1[j] == preds0[j],
        forall|j: int|
            #![trigger succs1[j]]
            #![trigger preds1[j]]
            nb0 <= j < nb1 ==> succs1[j] == SENTINEL && preds1[j] == SENTINEL,
    ensures
        chain_ok(l, head, succs1, preds1, nb1),
{
    assert forall|k: int| 0 <= k < l.len() implies #[trigger] succs1[l[k] as int] == (if k + 1
        < l.len() {
        l[k + 1] as usize
    } else {
        SENTINEL
    }) by {
        assert(l[k] < nb0);
    }
    assert forall|k: int| 0 <= k < l.len() implies #[trigger] preds1[l[k] as int] == (if k == 0 {
        SENTINEL
    } else {
        l[k - 1] as usize
    }) by {
        assert(l[k] < nb0);
    }
    assert forall|b: int| 0 <= b < nb1 && !l.contains(b as usize) implies #[trigger] preds1[b]
        == SENTINEL && succs1[b] == SENTINEL by {
        if b < nb0 {
            assert(preds0[b] == SENTINEL && succs0[b] == SENTINEL);
        }
    }
}

/// Linking a freshly added run of consecutive blocks `a ..= c` in front of a
/// well-formed chain whose blocks all lie below `a` leaves a well-formed
/// chain headed by `a`.
proof fn lemma_link_run_chain(
    l: Seq<usize>,
    a: int,
    c: int,
    head0: usize,
    succs0: Seq<usize>,
    preds0: Seq<usize>,
    succs1: Seq<usize>,
    preds1: Seq<usize>,
    nblocks: int,
)
    requires
        chain_ok(l, head0, succs0, preds0, nblocks),
        succs0.len() == nblocks,
        preds0.len() == nblocks,
        succs1.len() == nblocks,
        preds1.len() == nblocks,
        nblocks <= usize::MAX / 64 + 1,
        0 <= a <= c < nblocks,
        forall|k: int| 0 <= k < l.len() ==> #[trigger] l[k] < a,
        forall|j: int| a <= j < c ==> #[trigger] succs1[j] == (j + 1) as usize,
        succs1[c] == head0,
        forall|j: int| 0 <= j < nblocks && !(a <= j <= c) ==> #[trigger] succs1[j] == succs0[j],
        preds1[a] == SENTINEL,
        forall|j: int| a < j <= c ==> #[trigger] preds1[j] == (j - 1) as usize,
        l.len() > 0 ==> preds1[l[0] as int] == c as usize,
        forall|j: int|
            0 <= j < nblocks && !(a <= j <= c) && (l.len() == 0 || j != l[0] as int)
                ==> #[trigger] preds1[j] == preds0[j],
    ensures
        chain_ok(
            Seq::new((c - a + 1) as nat, |j: int| (a + j) as usize) + l,
            a as usize,
            succs1,
            preds1,
            nblocks,
        ),
{
    lemma_sentinel_large();
    let run = Seq::new((c - a + 1) as nat, |j: int| (a + j) as usize);
    let l2 = run + l;
    let rn = run.len() as int;
    assert(rn == c - a + 1);
    assert(forall|j: int| 0 <= j < rn ==> #[trigger] l2[j] == (a + j) as usize);
    assert(forall|j: int| rn <= j < l2.len() ==> #[trigger] l2[j] == l[j - rn]);
    assert(l2[0] == a as usize);
    assert forall|k: int| 0 <= k < l2.len() implies #[trigger] l2[k] < nblocks by {
        if k < rn {
            assert(l2[k] == (a + k) as usize);
        } else {
            assert(l2[k] == l[k - rn]);
            assert(l[k - rn] < a);
        }
    }
    assert forall|i: int, j: int| #![trigger l2[i], l2[j]] 0 <= i < j < l2.len() implies l2[i]
        != l2[j] by {
        if j < rn {
        } else if i < rn {
            assert(l[j - rn] < a);
        } else {
            assert(l[i - rn] != l[j - rn]);
        }
    }
    assert forall|j: int| 0 <= j < l2.len() implies #[trigger] succs1[l2[j] as int] == (if j + 1
        < l2.len() {
        l2[j + 1] as usize
    } else {
        SENTINEL
    }) by {
        if j < rn - 1 {
            assert(succs1[a + j] == (a + j + 1) as usize);
        } else if j == rn - 1 {
            assert(l2[j] == c as usize);
            assert(succs1[c] == head0);
            if l.len() > 0 {
                assert(l2[j + 1] == l[0]);
            }
        } else {
            let e = l[j - rn] as int;
            assert(l[j - rn] < a);
            assert(succs1[e] == succs0[e]);
            if j + 1 < l2.len() {
                assert(l2[j + 1] == l[j + 1 - rn]);
            }
        }
    }
    assert forall|j: int| 0 <= j < l2.len() implies #[trigger] preds1[l2[j] as int] == (if j == 0 {
        SENTINEL
    } else {
        l2[j - 1] as usize
    }) by {
        if j == 0 {
            assert(preds1[a] == SENTINEL);
        } else if j < rn {
            assert(preds1[a + j] == (a + j - 1) as usize);
        } else if j == rn {
            assert(l2[j] == l[0]);
            assert(preds1[l[0] as int] == c as usize);
            assert(l2[j - 1] == c as usize);
        } else {
            let e = l[j - rn] as int;
            assert(l[j - rn] < a);
            assert(l[j - rn] != l[0]);
            assert(preds1[e] == preds0[e]);
            assert(l2[j - 1] == l[j - 1 - rn]);
        }
    }
    assert forall|b: int| 0 <= b < nblocks && !l2.contains(b as usize) implies #[trigger] preds1[b]
        == SENTINEL && succs1[b] == SENTINEL by {
        assert(!(a <= b <= c)) by {
            if a <= b <= c {
                assert(l2[b - a] == b as usize);
                assert(l2.contains(b as usize));
            }
        }
        assert(!l.contains(b as usize)) by {
            if l.contains(b as usize) {
                let k2 = choose|k2: int| 0 <= k2 < l.len() && l[k2] == b as usize;
                assert(l2[rn + k2] == b as usize);
                assert(l2.contains(b as usize));
            }
        }
        assert(preds0[b] == SENTINEL && succs0[b] == SENTINEL);
        if l.len() > 0 {
            assert(l.contains(l[0]));
            assert(b != l[0] as int);
        }
    }
    // Restate the chain conditions on the assembled sequence, so that they
    // carry over to the postcondition's form of it.
    assert(forall|k: int| 0 <= k < l2.len() ==> #[trigger] l2[k] < nblocks);
    assert(forall|j: int, k: int| #![trigger l2[j], l2[k]] 0 <= j < k < l2.len() ==> l2[j] != l2[k]);
    assert(a as usize == if l2.len() == 0 {
        SENTINEL
    } else {
        l2[0] as usize
    });
    assert(forall|k: int|
        0 <= k < l2.len() ==> #[trigger] succs1[l2[k] as int] == if k + 1 < l2.len() {
            l2[k + 1] as usize
        } else {
            SENTINEL
        });
    assert(forall|k: int|
        0 <= k < l2.len() ==> #[trigger] preds1[l2[k] as int] == if k == 0 {
            SENTINEL
        } else {
            l2[k - 1] as usize
        });
    assert(chain_ok(l2, a as usize, succs1, preds1, nblocks));
}

/// A mask with exactly one clear bit has that bit as the lowest clear one.
proof fn lemma_tz_of_single_clear(m: u64, o: u64)
    requires
        o < 64,
        m == u64::MAX ^ (1u64 << o),
    ensures
        vstd::std_specs::bits::u64_trailing_zeros(!m) == o,
{
    let tzu: u64 = vstd::std_specs::bits::u64_trailing_zeros(!m) as u64;
    assert(!m == (1u64 << o)) by (bit_vector)
        requires
            o < 64 && m == 0xffff_ffff_ffff_ffffu64 ^ (1u64 << o),
    ;
    axiom_u64_trailing_zeros(!m);
    assert((1u64 << o) != 0u64) by (bit_vector)
        requires
            o < 64,
    ;
    assert(tzu == o) by (bit_vector)
        requires
            o < 64 && tzu < 64 && ((1u64 << o) >> tzu) & 1u64 == 1u64,
    ;
}

/// The trailing-zero count of the complemented mask locates the lowest clear
/// bit of a mask that is not all ones.
proof fn lemma_lowest_zero_bit(m: u64)
    requires
        m != u64::MAX,
    ensures
        ({
            let tz = vstd::std_specs::bits::u64_trailing_zeros(!m) as int;
            &&& 0 <= tz < 64
            &&& !bit_is_set(m, tz)
            &&& forall|j: int| 0 <= j < tz ==> bit_is_set(m, j)
        }),
{
    let tzu: u64 = vstd::std_specs::bits::u64_trailing_zeros(!m) as u64;
    axiom_u64_trailing_zeros(!m);
    assert(!m != 0u64) by (bit_vector)
        requires
            m != u64::MAX,
    ;
    assert((m >> tzu) & 1u64 == 0u64) by (bit_vector)
        requires
            tzu < 64 && ((!m) >> tzu) & 1u64 == 1u64,
    ;
    assert forall|j: int| 0 <= j < tzu implies bit_is_set(m, j) by {
        let ju = j as u64;
        assert(ju < 64 && ((!m) >> ju) & 1u64 == 0u64 ==> (m >> ju) & 1u64 == 1u64) by (bit_vector);
    }
}

} // verus!
