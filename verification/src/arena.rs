use vstd::prelude::*;

use core::marker::PhantomData;
use crate::utils::{bit_at, first_zero_position};

verus! {

use vstd::arithmetic::div_mod::lemma_fundamental_div_mod;

/// Number of value slots in the backing store (one untracked slot plus
/// eight slots per free-list byte).
pub const ARENA_SIZE: usize = 419329;

/// Number of bytes in the free-list bitmap.
pub const FREE_SIZE: usize = 52416;

/// A copyable reference to one slot of an [`Arena`]. Index `0` is the
/// reserved null handle; index `1` addresses the untracked slot that the
/// octree uses for its root; indices from `2` on are tracked by the
/// free-list bitmap.
pub struct ArenaHandle<T> {
    pub(crate) index: u32,
    _marker: PhantomData<T>,
}

impl<T> Clone for ArenaHandle<T> {
    fn clone(&self) -> (r: Self)
        ensures
            r == *self,
    {
        ArenaHandle { index: self.index, _marker: PhantomData }
    }
}

impl<T> Copy for ArenaHandle<T> {

}

/// A fixed-capacity slot store. Slot `h` (for a handle with index `h`)
/// lives at `data[h - 1]`; its occupancy bit is bit `(h - 2) % 8` of
/// bitmap byte `(h - 2) / 8`. One bitmap byte covers a contiguous group
/// of eight slots, which `store_8_aligned` claims and frees as a unit.
pub struct Arena<T> {
    data: Vec<T>,
    free_space: Vec<u8>,
    empty: T,
}

/// Handle indices tracked by the free-list bitmap.
pub open spec fn valid_handle(h: int) -> bool {
    2 <= h < 2 + 8 * (FREE_SIZE as int)
}

/// Handle indices that address a slot of the backing store; this adds the
/// untracked slot `1` to the tracked range.
pub open spec fn valid_slot(h: int) -> bool {
    1 <= h < 1 + (ARENA_SIZE as int)
}

/// Bitmap byte holding the occupancy bit of handle index `h`.
pub open spec fn byte_of(h: int) -> int {
    (h - 2) / 8
}

/// Position of the occupancy bit of handle index `h` within its byte.
pub open spec fn bit_of(h: int) -> u8 {
    ((h - 2) % 8) as u8
}

/// Number of set bits among the `k` lowest bits of `b`.
pub open spec fn byte_ones_upto(b: u8, k: int) -> int
    decreases k,
{
    if k <= 0 {
        0
    } else {
        byte_ones_upto(b, k - 1) + if bit_at(b, (k - 1) as u8) {
            1int
        } else {
            0int
        }
    }
}

/// Number of set bits of `b`.
pub open spec fn byte_ones(b: u8) -> int {
    byte_ones_upto(b, 8)
}

/// Total number of set bits of a byte sequence.
pub open spec fn count_ones(s: Seq<u8>) -> int
    decreases s.len(),
{
    if s.len() == 0 {
        0
    } else {
        count_ones(s.drop_last()) + byte_ones(s.last())
    }
}

/// Number of all-zero bytes of a byte sequence.
pub open spec fn zero_bytes(s: Seq<u8>) -> int
    decreases s.len(),
{
    if s.len() == 0 {
        0
    } else {
        zero_bytes(s.drop_last()) + if s.last() == 0u8 {
            1int
        } else {
            0int
        }
    }
}

pub proof fn lemma_byte_ones_flat(b: u8)
    ensures
        byte_ones(b) == ((b >> 0) & 1) as int + ((b >> 1) & 1) as int + ((b >> 2) & 1) as int + ((b
            >> 3) & 1) as int + ((b >> 4) & 1) as int + ((b >> 5) & 1) as int + ((b >> 6)
            & 1) as int + ((b >> 7) & 1) as int,
{
    assert(forall|i: u8| i < 8 ==> (bit_at(b, i) ==> ((b >> i) & 1) as int == 1) && (!bit_at(b, i)
        ==> ((b >> i) & 1) as int == 0)) by (bit_vector);
    assert(byte_ones_upto(b, 0) == 0);
    assert(byte_ones_upto(b, 1) == byte_ones_upto(b, 0) + if bit_at(b, 0u8) { 1int } else { 0int });
    assert(byte_ones_upto(b, 2) == byte_ones_upto(b, 1) + if bit_at(b, 1u8) { 1int } else { 0int });
    assert(byte_ones_upto(b, 3) == byte_ones_upto(b, 2) + if bit_at(b, 2u8) { 1int } else { 0int });
    assert(byte_ones_upto(b, 4) == byte_ones_upto(b, 3) + if bit_at(b, 3u8) { 1int } else { 0int });
    assert(byte_ones_upto(b, 5) == byte_ones_upto(b, 4) + if bit_at(b, 4u8) { 1int } else { 0int });
    assert(byte_ones_upto(b, 6) == byte_ones_upto(b, 5) + if bit_at(b, 5u8) { 1int } else { 0int });
    assert(byte_ones_upto(b, 7) == byte_ones_upto(b, 6) + if bit_at(b, 6u8) { 1int } else { 0int });
    assert(byte_ones_upto(b, 8) == byte_ones_upto(b, 7) + if bit_at(b, 7u8) { 1int } else { 0int });
}

pub proof fn lemma_byte_ones_bound(b: u8, k: int)
    ensures
        0 <= byte_ones_upto(b, k) <= if k >= 0 {
            k
        } else {
            0
        },
    decreases k,
{
    if k > 0 {
        lemma_byte_ones_bound(b, k - 1);
    }
}

pub proof fn lemma_byte_ones_full(b: u8)
    ensures
        b == 255 ==> byte_ones(b) == 8,
        b == 0 ==> byte_ones(b) == 0,
        forall|i: u8| i < 8 ==> (#[trigger] bit_at(b, i) == ((b >> i) & 1 == 1)),
        b == 255 ==> forall|i: u8| i < 8 ==> bit_at(b, i),
        b == 0 ==> forall|i: u8| i < 8 ==> !bit_at(b, i),
{
    lemma_byte_ones_flat(b);
    assert(b == 255 ==> ((b >> 0) & 1) as int + ((b >> 1) & 1) as int + ((b >> 2) & 1) as int + ((b
        >> 3) & 1) as int + ((b >> 4) & 1) as int + ((b >> 5) & 1) as int + ((b >> 6) & 1) as int
        + ((b >> 7) & 1) as int == 8) by (bit_vector);
    assert(b == 0 ==> ((b >> 0) & 1) as int + ((b >> 1) & 1) as int + ((b >> 2) & 1) as int + ((b
        >> 3) & 1) as int + ((b >> 4) & 1) as int + ((b >> 5) & 1) as int + ((b >> 6) & 1) as int
        + ((b >> 7) & 1) as int == 0) by (bit_vector);
    assert(forall|i: u8| i < 8 && b == 255 ==> (b >> i) & 1 == 1) by (bit_vector);
    assert(forall|i: u8| i < 8 && b == 0 ==> (b >> i) & 1 != 1) by (bit_vector);
}

/// Setting one clear bit of a byte raises its population count by one and
/// leaves every other bit as it was.
pub proof fn lemma_set_bit(b: u8, p: u8)
    requires
        p < 8,
        !bit_at(b, p),
    ensures
        bit_at(b | (1u8 << p), p),
        forall|i: u8| i < 8 && i != p ==> #[trigger] bit_at(b | (1u8 << p), i) == bit_at(b, i),
        byte_ones(b | (1u8 << p)) == byte_ones(b) + 1,
        b | (1u8 << p) != 0,
        b == 0 ==> zero_bytes_term(b) == 1,
{
    lemma_byte_ones_flat(b);
    lemma_byte_ones_flat(b | (1u8 << p));
    assert((b | (1u8 << p)) >> p & 1 == 1) by (bit_vector)
        requires
            p < 8,
    ;
    assert(forall|i: u8| i < 8 && i != p ==> ((b | (1u8 << p)) >> i) & 1 == (b >> i) & 1)
        by (bit_vector)
        requires
            p < 8,
    ;
    assert(((b | (1u8 << p)) >> 0 & 1) as int + ((b | (1u8 << p)) >> 1 & 1) as int + ((b | (1u8
        << p)) >> 2 & 1) as int + ((b | (1u8 << p)) >> 3 & 1) as int + ((b | (1u8 << p)) >> 4
        & 1) as int + ((b | (1u8 << p)) >> 5 & 1) as int + ((b | (1u8 << p)) >> 6 & 1) as int + ((b
        | (1u8 << p)) >> 7 & 1) as int == (b >> 0 & 1) as int + (b >> 1 & 1) as int + (b >> 2
        & 1) as int + (b >> 3 & 1) as int + (b >> 4 & 1) as int + (b >> 5 & 1) as int + (b >> 6
        & 1) as int + (b >> 7 & 1) as int + 1) by (bit_vector)
        requires
            p < 8,
            (b >> p) & 1 != 1,
    ;
    assert((b | (1u8 << p)) != 0) by (bit_vector)
        requires
            p < 8,
    ;
}

/// Two bytes that agree on all eight bits are equal.
pub proof fn lemma_byte_eq_from_bits(b1: u8, b2: u8)
    requires
        forall|i: u8| i < 8 ==> #[trigger] bit_at(b1, i) == bit_at(b2, i),
    ensures
        b1 == b2,
{
    assert(bit_at(b1, 0) == bit_at(b2, 0) && bit_at(b1, 1) == bit_at(b2, 1) && bit_at(b1, 2)
        == bit_at(b2, 2) && bit_at(b1, 3) == bit_at(b2, 3) && bit_at(b1, 4) == bit_at(b2, 4)
        && bit_at(b1, 5) == bit_at(b2, 5) && bit_at(b1, 6) == bit_at(b2, 6) && bit_at(b1, 7)
        == bit_at(b2, 7));
    assert(b1 == b2) by (bit_vector)
        requires
            ((b1 >> 0) & 1 == 1) == ((b2 >> 0) & 1 == 1),
            ((b1 >> 1) & 1 == 1) == ((b2 >> 1) & 1 == 1),
            ((b1 >> 2) & 1 == 1) == ((b2 >> 2) & 1 == 1),
            ((b1 >> 3) & 1 == 1) == ((b2 >> 3) & 1 == 1),
            ((b1 >> 4) & 1 == 1) == ((b2 >> 4) & 1 == 1),
            ((b1 >> 5) & 1 == 1) == ((b2 >> 5) & 1 == 1),
            ((b1 >> 6) & 1 == 1) == ((b2 >> 6) & 1 == 1),
            ((b1 >> 7) & 1 == 1) == ((b2 >> 7) & 1 == 1),
    ;
}

/// A byte with all eight bits set is `255`.
pub proof fn lemma_byte_all_set(b: u8)
    requires
        forall|i: u8| i < 8 ==> #[trigger] bit_at(b, i),
    ensures
        b == 255,
{
    lemma_byte_ones_full(255u8);
    lemma_byte_eq_from_bits(b, 255u8);
}

/// A sequence with a positive zero-byte count holds a zero byte.
pub proof fn lemma_zero_bytes_pos(s: Seq<u8>)
    requires
        zero_bytes(s) > 0,
    ensures
        exists|i: int| 0 <= i < s.len() && s[i] == 0u8,
    decreases s.len(),
{
    if s.len() > 0 {
        if s.last() == 0u8 {
            assert(s[s.len() - 1] == 0u8);
        } else {
            lemma_zero_bytes_pos(s.drop_last());
            let i = choose|i: int| 0 <= i < s.drop_last().len() && s.drop_last()[i] == 0u8;
            assert(s[i] == 0u8);
        }
    }
}

/// One if the byte is zero, else zero; the amount a byte contributes to
/// [`zero_bytes`].
pub open spec fn zero_bytes_term(b: u8) -> int {
    if b == 0u8 {
        1
    } else {
        0
    }
}

/// Clearing one set bit of a byte lowers its population count by one and
/// leaves every other bit as it was.
pub proof fn lemma_clear_bit(b: u8, p: u8)
    requires
        p < 8,
        bit_at(b, p),
    ensures
        !bit_at(b & !(1u8 << p), p),
        forall|i: u8| i < 8 && i != p ==> #[trigger] bit_at(b & !(1u8 << p), i) == bit_at(b, i),
        byte_ones(b & !(1u8 << p)) == byte_ones(b) - 1,
{
    lemma_byte_ones_flat(b);
    lemma_byte_ones_flat(b & !(1u8 << p));
    assert((b & !(1u8 << p)) >> p & 1 != 1) by (bit_vector)
        requires
            p < 8,
    ;
    assert(forall|i: u8| i < 8 && i != p ==> ((b & !(1u8 << p)) >> i) & 1 == (b >> i) & 1)
        by (bit_vector)
        requires
            p < 8,
    ;
    assert(((b & !(1u8 << p)) >> 0 & 1) as int + ((b & !(1u8 << p)) >> 1 & 1) as int + ((b & !(1u8
        << p)) >> 2 & 1) as int + ((b & !(1u8 << p)) >> 3 & 1) as int + ((b & !(1u8 << p)) >> 4
        & 1) as int + ((b & !(1u8 << p)) >> 5 & 1) as int + ((b & !(1u8 << p)) >> 6 & 1) as int
        + ((b & !(1u8 << p)) >> 7 & 1) as int == (b >> 0 & 1) as int + (b >> 1 & 1) as int + (b
        >> 2 & 1) as int + (b >> 3 & 1) as int + (b >> 4 & 1) as int + (b >> 5 & 1) as int + (b
        >> 6 & 1) as int + (b >> 7 & 1) as int - 1) by (bit_vector)
        requires
            p < 8,
            (b >> p) & 1 == 1,
    ;
}

/// Replacing one byte of a sequence shifts the bit and zero-byte counts by
/// exactly the difference the new byte makes.
pub proof fn lemma_counts_update(s: Seq<u8>, i: int, v: u8)
    requires
        0 <= i < s.len(),
    ensures
        count_ones(s.update(i, v)) == count_ones(s) - byte_ones(s[i]) + byte_ones(v),
        zero_bytes(s.update(i, v)) == zero_bytes(s) - zero_bytes_term(s[i]) + zero_bytes_term(v),
    decreases s.len(),
{
    let s2 = s.update(i, v);
    if i == s.len() - 1 {
        assert(s2.drop_last() =~= s.drop_last());
        assert(s2.last() == v);
    } else {
        lemma_counts_update(s.drop_last(), i, v);
        assert(s2.drop_last() =~= s.drop_last().update(i, v));
        assert(s2.last() == s.last());
    }
}

pub proof fn lemma_counts_bounds(s: Seq<u8>)
    ensures
        0 <= count_ones(s) <= 8 * s.len(),
        0 <= zero_bytes(s) <= s.len(),
    decreases s.len(),
{
    if s.len() > 0 {
        lemma_counts_bounds(s.drop_last());
        lemma_byte_ones_bound(s.last(), 8);
    }
}

pub proof fn lemma_counts_all_zero(s: Seq<u8>)
    requires
        forall|i: int| 0 <= i < s.len() ==> s[i] == 0u8,
    ensures
        count_ones(s) == 0,
        zero_bytes(s) == s.len(),
    decreases s.len(),
{
    if s.len() > 0 {
        lemma_counts_all_zero(s.drop_last());
        lemma_byte_ones_full(s.last());
    }
}

pub proof fn lemma_count_ones_take_step(s: Seq<u8>, i: int)
    requires
        0 <= i < s.len(),
    ensures
        count_ones(s.take(i + 1)) == count_ones(s.take(i)) + byte_ones(s[i]),
{
    assert(s.take(i + 1).drop_last() =~= s.take(i));
    assert(s.take(i + 1).last() == s[i]);
}

/// Relates a handle index to the byte and bit that track it.
pub proof fn lemma_handle_byte(h: int)
    requires
        valid_handle(h),
    ensures
        0 <= byte_of(h) < FREE_SIZE as int,
        h == 8 * byte_of(h) + (bit_of(h) as int) + 2,
        bit_of(h) < 8,
{
    lemma_fundamental_div_mod(h - 2, 8);
}

/// Relates a byte and bit position back to the handle index they track.
pub proof fn lemma_byte_handle(g: int, p: int)
    requires
        0 <= g < FREE_SIZE as int,
        0 <= p < 8,
    ensures
        valid_handle(8 * g + p + 2),
        byte_of(8 * g + p + 2) == g,
        bit_of(8 * g + p + 2) as int == p,
{
    assert((8 * g + p) / 8 == g && (8 * g + p) % 8 == p) by (nonlinear_arith)
        requires
            0 <= g,
            0 <= p < 8,
    ;
}

impl<T> ArenaHandle<T> {
    /// The slot index this handle carries.
    pub closed spec fn idx(&self) -> int {
        self.index as int
    }

    pub(crate) fn new(index: u32) -> (r: Self)
        ensures
            r.idx() == index as int,
    {
        ArenaHandle { index, _marker: PhantomData }
    }

    /// The null handle: refers to no slot.
    pub(crate) fn null() -> (r: Self)
        ensures
            r.idx() == 0,
    {
        ArenaHandle { index: 0, _marker: PhantomData }
    }

    /// Handle to the slot `offset` places after this one; addresses the
    /// members of an 8-aligned group.
    pub fn index(&self, offset: u32) -> (r: Self)
        requires
            self.idx() + offset <= u32::MAX,
        ensures
            r.idx() == self.idx() + offset,
    {
        ArenaHandle { index: self.index + offset, _marker: PhantomData }
    }

    pub fn is_null(&self) -> (r: bool)
        ensures
            r == (self.idx() == 0),
    {
        self.index == 0
    }

    /// The raw slot index, exposed for introspection.
    pub fn slot_index(&self) -> (r: u32)
        ensures
            r as int == self.idx(),
    {
        self.index
    }
}

impl<T: Default + Copy> Arena<T> {
    /// The backing store, one entry per slot, indexed by handle index minus
    /// one.
    pub closed spec fn slots(&self) -> Seq<T> {
        self.data@
    }

    /// The free-list bitmap.
    pub closed spec fn bitmap(&self) -> Seq<u8> {
        self.free_space@
    }

    /// The value free slots are reset to, captured from `T::default()` at
    /// construction.
    pub closed spec fn empty_val(&self) -> T {
        self.empty
    }

    /// Whether the slot of handle index `h` is currently allocated.
    pub open spec fn occupied(&self, h: int) -> bool {
        bit_at(self.bitmap()[byte_of(h)], bit_of(h))
    }

    /// The value stored in the slot of handle index `h`.
    pub open spec fn val_at(&self, h: int) -> T {
        self.slots()[h - 1]
    }

    /// Number of allocated slots (set bits of the bitmap).
    pub open spec fn alloc_count(&self) -> int {
        count_ones(self.bitmap())
    }

    /// Number of fully free 8-slot groups (zero bytes of the bitmap).
    pub open spec fn free_groups(&self) -> int {
        zero_bytes(self.bitmap())
    }

    /// Structural invariant: the store and bitmap have their fixed sizes,
    /// and every free tracked slot holds the empty value, so freed slots
    /// never expose stale data.
    pub open spec fn wf(&self) -> bool {
        &&& self.slots().len() == ARENA_SIZE as int
        &&& self.bitmap().len() == FREE_SIZE as int
        &&& forall|h: int|
            valid_handle(h) && !self.occupied(h) ==> #[trigger] self.val_at(h) == self.empty_val()
    }

    /// A state whose free slots all come from a well-formed state, free
    /// there too and with their values kept, is well-formed again.
    pub proof fn lemma_wf_preserved(pre: Self, post: Self)
        requires
            pre.wf(),
            post.slots().len() == pre.slots().len(),
            post.bitmap().len() == pre.bitmap().len(),
            post.empty_val() == pre.empty_val(),
            forall|h: int|
                valid_handle(h) && !post.occupied(h) ==> !pre.occupied(h) && #[trigger] post.val_at(
                    h,
                ) == pre.val_at(h),
        ensures
            post.wf(),
    {
    }

    /// A write through an allocated slot (or the untracked slot) preserves
    /// the arena invariant.
    pub proof fn lemma_wf_after_write(pre: Self, post: Self, h: int)
        requires
            pre.wf(),
            h == 1 || (valid_handle(h) && pre.occupied(h)),
            post.slots().len() == pre.slots().len(),
            post.bitmap() == pre.bitmap(),
            post.empty_val() == pre.empty_val(),
            forall|j: int| valid_slot(j) && j != h ==> #[trigger] post.val_at(j) == pre.val_at(j),
        ensures
            post.wf(),
    {
        assert forall|j: int| valid_handle(j) && !post.occupied(j) implies #[trigger] post.val_at(j)
            == post.empty_val() by {
            assert(j != h);
            assert(post.val_at(j) == pre.val_at(j));
        }
    }

    /// A fully free arena, every slot holding `T::default()`.
    pub fn new() -> (r: Self)
        ensures
            r.wf(),
            forall|h: int| valid_handle(h) ==> !r.occupied(h),
            forall|i: int| 0 <= i < ARENA_SIZE as int ==> r.slots()[i] == r.empty_val(),
            r.alloc_count() == 0,
            r.free_groups() == FREE_SIZE as int,
            call_ensures(T::default, (), r.empty_val()),
    {
        let empty = T::default();
        let mut data: Vec<T> = Vec::new();
        let mut i: usize = 0;
        while i < ARENA_SIZE
            invariant
                i <= ARENA_SIZE,
                data@.len() == i as int,
                forall|j: int| 0 <= j < i as int ==> data@[j] == empty,
            decreases ARENA_SIZE - i,
        {
            data.push(empty);
            i = i + 1;
        }
        let mut free_space: Vec<u8> = Vec::new();
        let mut k: usize = 0;
        while k < FREE_SIZE
            invariant
                k <= FREE_SIZE,
                free_space@.len() == k as int,
                forall|j: int| 0 <= j < k as int ==> free_space@[j] == 0u8,
            decreases FREE_SIZE - k,
        {
            free_space.push(0u8);
            k = k + 1;
        }
        let r = Arena { data, free_space, empty };
        proof {
            lemma_counts_all_zero(r.bitmap());
            assert forall|h: int| valid_handle(h) implies !r.occupied(h) by {
                lemma_handle_byte(h);
                lemma_byte_ones_full(r.bitmap()[byte_of(h)]);
            }
        }
        r
    }

    /// Writes through a handle; a null handle makes the call a no-op, so a
    /// caller holding a possibly absent handle may write defensively.
    pub fn set(&mut self, handle: &ArenaHandle<T>, new_value: T)
        requires
            old(self).wf(),
            handle.idx() == 0 || handle.idx() == 1 || (valid_handle(handle.idx()) && old(self).occupied(handle.idx())),
        ensures
            final(self).wf(),
            handle.idx() == 0 ==> final(self).slots() == old(self).slots(),
            handle.idx() != 0 ==> final(self).slots() == old(self).slots().update(
                handle.idx() - 1,
                new_value,
            ),
            final(self).bitmap() == old(self).bitmap(),
            final(self).empty_val() == old(self).empty_val(),
    {
        if handle.is_null() {
            return ;
        }
        let i = handle.index as usize - 1;
        self.data[i] = new_value;
        proof {
            Self::lemma_wf_after_write(*old(self), *self, handle.idx());
        }
    }

    /// Reads the slot a handle refers to.
    pub fn get(&self, handle: &ArenaHandle<T>) -> (r: &T)
        requires
            self.wf(),
            valid_slot(handle.idx()),
        ensures
            *r == self.val_at(handle.idx()),
    {
        &self.data[handle.index as usize - 1]
    }

    /// Mutable access to the slot a handle refers to. The handle must be
    /// allocated (or the untracked slot), so the caller's write cannot
    /// plant data in a free slot.
    pub fn get_mut(&mut self, handle: &ArenaHandle<T>) -> (r: &mut T)
        requires
            old(self).wf(),
            handle.idx() == 1 || (valid_handle(handle.idx()) && old(self).occupied(handle.idx())),
        ensures
            *r == old(self).val_at(handle.idx()),
            final(self).slots() == old(self).slots().update(handle.idx() - 1, *final(r)),
            final(self).bitmap() == old(self).bitmap(),
            final(self).empty_val() == old(self).empty_val(),
    {
        &mut self.data[handle.index as usize - 1]
    }

    /// A read-only view of the whole backing store, dead slots included.
    pub fn as_slice(&self) -> (r: &[T])
        ensures
            r@ == self.slots(),
    {
        self.data.as_slice()
    }

    /// Allocates the lowest free slot, first-fit: the first bitmap byte
    /// with a clear bit, then the lowest clear bit within it.
    pub fn store(&mut self, value: T) -> (r: ArenaHandle<T>)
        requires
            old(self).wf(),
            exists|g: int| 0 <= g < FREE_SIZE as int && old(self).bitmap()[g] != 255u8,
        ensures
            final(self).wf(),
            valid_handle(r.idx()),
            !old(self).occupied(r.idx()),
            forall|j: int| valid_handle(j) && j < r.idx() ==> old(self).occupied(j),
            final(self).occupied(r.idx()),
            forall|j: int|
                valid_handle(j) && j != r.idx() ==> final(self).occupied(j) == old(self).occupied(
                    j,
                ),
            final(self).slots() == old(self).slots().update(r.idx() - 1, value),
            final(self).alloc_count() == old(self).alloc_count() + 1,
            final(self).empty_val() == old(self).empty_val(),
    {
        let n = self.free_space.len();
        let mut g: usize = 0;
        while g < n
            invariant
                old(self).wf(),
                *self == *old(self),
                n == FREE_SIZE,
                g <= n,
                forall|j: int| 0 <= j < g as int ==> self.bitmap()[j] == 255u8,
            decreases n - g,
        {
            let b = self.free_space[g];
            if b != 255 {
                let pos = first_zero_position(b);
                let claimed: u8 = b | (1u8 << pos);
                self.free_space[g] = claimed;
                let hidx: u32 = (g as u32) * 8 + (pos as u32) + 2;
                let handle = ArenaHandle::new(hidx);
                proof {
                    lemma_set_bit(b, pos);
                    lemma_counts_update(old(self).bitmap(), g as int, claimed);
                    lemma_byte_handle(g as int, pos as int);
                    assert(handle.idx() == 8 * (g as int) + pos + 2);
                    assert(self.bitmap() == old(self).bitmap().update(g as int, claimed));
                    assert(self.occupied(handle.idx()));
                    assert(!old(self).occupied(handle.idx()));
                    assert forall|j: int|
                        valid_handle(j) && j != handle.idx() implies self.occupied(j) == old(self).occupied(j) by {
                        lemma_handle_byte(j);
                        if byte_of(j) == g as int {
                            assert(bit_of(j) != pos);
                            assert(bit_at(claimed, bit_of(j)) == bit_at(b, bit_of(j)));
                        }
                    }
                    assert forall|j: int|
                        valid_handle(j) && j < handle.idx() implies old(self).occupied(j) by {
                        lemma_handle_byte(j);
                        assert(j == 8 * byte_of(j) + (bit_of(j) as int) + 2);
                        if byte_of(j) < g as int {
                            lemma_byte_ones_full(old(self).bitmap()[byte_of(j)]);
                            assert(old(self).bitmap()[byte_of(j)] == 255u8);
                            assert(bit_at(old(self).bitmap()[byte_of(j)], bit_of(j)));
                        } else {
                            assert(byte_of(j) == g as int);
                            assert(bit_of(j) < pos);
                            assert(bit_at(b, bit_of(j)));
                        }
                    }
                    assert forall|h: int|
                        valid_handle(h) && !self.occupied(h) implies !old(self).occupied(h)
                        && #[trigger] self.val_at(h) == old(self).val_at(h) by {
                        assert(h != handle.idx());
                    }
                    Self::lemma_wf_preserved(*old(self), *self);
                }
                self.set(&handle, value);
                return handle;
            }
            g = g + 1;
        }
        proof {
            assert(false);
        }
        vstd::pervasive::unreached()
    }

    /// Atomically allocates the first fully free group of eight contiguous
    /// slots and writes the eight values into it; returns a handle to the
    /// group's first slot.
    pub fn store_8_aligned(&mut self, values: [T; 8]) -> (r: ArenaHandle<T>)
        requires
            old(self).wf(),
            exists|g: int| 0 <= g < FREE_SIZE as int && old(self).bitmap()[g] == 0u8,
        ensures
            final(self).wf(),
            valid_handle(r.idx()),
            valid_handle(r.idx() + 7),
            (r.idx() - 2) % 8 == 0,
            old(self).bitmap()[byte_of(r.idx())] == 0u8,
            forall|g: int| 0 <= g < byte_of(r.idx()) ==> old(self).bitmap()[g] != 0u8,
            final(self).bitmap() == old(self).bitmap().update(byte_of(r.idx()), 255u8),
            forall|k: int| 0 <= k < 8 ==> #[trigger] final(self).val_at(r.idx() + k) == values@[k],
            forall|j: int|
                valid_slot(j) && !(r.idx() <= j < r.idx() + 8) ==> #[trigger] final(self).val_at(j)
                    == old(self).val_at(j),
            forall|k: int| 0 <= k < 8 ==> #[trigger] final(self).occupied(r.idx() + k),
            forall|j: int|
                valid_handle(j) && !(r.idx() <= j < r.idx() + 8) ==> final(self).occupied(j) == old(self).occupied(j),
            final(self).alloc_count() == old(self).alloc_count() + 8,
            final(self).free_groups() == old(self).free_groups() - 1,
            final(self).empty_val() == old(self).empty_val(),
    {
        let n = self.free_space.len();
        let mut g: usize = 0;
        while g < n
            invariant
                old(self).wf(),
                *self == *old(self),
                n == FREE_SIZE,
                g <= n,
                forall|j: int| 0 <= j < g as int ==> self.bitmap()[j] != 0u8,
            decreases n - g,
        {
            let b = self.free_space[g];
            if b == 0 {
                self.free_space[g] = 255;
                let hidx: u32 = (g as u32) * 8 + 2;
                let handle = ArenaHandle::new(hidx);
                proof {
                    lemma_byte_ones_full(0u8);
                    lemma_byte_ones_full(255u8);
                    lemma_counts_update(old(self).bitmap(), g as int, 255u8);
                    lemma_byte_handle(g as int, 0);
                    assert(handle.idx() == 8 * (g as int) + 2);
                    assert(self.bitmap() == old(self).bitmap().update(g as int, 255u8));
                    assert forall|k: int| 0 <= k < 8 implies #[trigger] self.occupied(
                        hidx as int + k,
                    ) by {
                        lemma_byte_handle(g as int, k);
                        assert(self.bitmap()[g as int] == 255u8);
                        assert(bit_at(255u8, bit_of(hidx as int + k)));
                    }
                    assert forall|j: int|
                        valid_handle(j) && !(hidx as int <= j < hidx as int + 8) implies self
                        .occupied(j) == old(self).occupied(j) by {
                        lemma_handle_byte(j);
                        assert(j == 8 * byte_of(j) + (bit_of(j) as int) + 2);
                        assert(byte_of(j) != g as int);
                    }
                    assert forall|h: int|
                        valid_handle(h) && !self.occupied(h) implies !old(self).occupied(h)
                        && #[trigger] self.val_at(h) == old(self).val_at(h) by {
                        lemma_handle_byte(h);
                        if byte_of(h) == g as int {
                            assert(self.bitmap()[byte_of(h)] == 255u8);
                            assert(bit_at(self.bitmap()[byte_of(h)], bit_of(h)));
                        }
                    }
                    Self::lemma_wf_preserved(*old(self), *self);
                }
                let ghost mid = *self;
                let mut k: u32 = 0;
                while k < 8
                    invariant
                        k <= 8,
                        mid.wf(),
                        self.wf(),
                        handle.idx() == hidx as int,
                        valid_handle(hidx as int),
                        valid_handle(hidx as int + 7),
                        forall|j: int| 0 <= j < 8 ==> #[trigger] mid.occupied(hidx as int + j),
                        self.bitmap() == mid.bitmap(),
                        self.empty_val() == mid.empty_val(),
                        self.slots().len() == mid.slots().len(),
                        forall|i: int|
                            0 <= i < k as int ==> #[trigger] self.val_at(hidx as int + i)
                                == values@[i],
                        forall|j: int|
                            valid_slot(j) && !(hidx as int <= j < hidx as int + k as int)
                                ==> #[trigger] self.val_at(j) == mid.val_at(j),
                    decreases 8 - k,
                {
                    let member = handle.index(k);
                    proof {
                        assert(mid.occupied(hidx as int + k as int));
                        assert(self.occupied(member.idx()) == mid.occupied(member.idx()));
                    }
                    let ghost prev = *self;
                    self.set(&member, values[k as usize]);
                    proof {
                        assert(self.slots() == prev.slots().update(
                            member.idx() - 1,
                            values@[k as int],
                        ));
                        assert forall|i: int|
                            0 <= i < k as int + 1 implies #[trigger] self.val_at(hidx as int + i)
                            == values@[i] by {
                            if i < k as int {
                                assert(self.val_at(hidx as int + i) == prev.val_at(
                                    hidx as int + i,
                                ));
                            }
                        }
                        assert forall|j: int|
                            valid_slot(j) && !(hidx as int <= j < hidx as int + k as int
                                + 1) implies #[trigger] self.val_at(j) == mid.val_at(j) by {
                            assert(self.val_at(j) == prev.val_at(j));
                        }
                    }
                    k = k + 1;
                }
                proof {
                    assert(mid.slots() == old(self).slots());
                    assert forall|j: int|
                        valid_slot(j) && !(hidx as int <= j < hidx as int + 8) implies #[trigger] self
                        .val_at(j) == old(self).val_at(j) by {
                        assert(self.val_at(j) == mid.val_at(j));
                    }
                }
                return handle;
            }
            g = g + 1;
        }
        proof {
            assert(false);
        }
        vstd::pervasive::unreached()
    }

    /// Frees one slot and resets it to the empty value.
    pub fn remove(&mut self, handle: ArenaHandle<T>)
        requires
            old(self).wf(),
            valid_handle(handle.idx()),
            old(self).occupied(handle.idx()),
        ensures
            final(self).wf(),
            !final(self).occupied(handle.idx()),
            forall|j: int|
                valid_handle(j) && j != handle.idx() ==> final(self).occupied(j) == old(self).occupied(j),
            final(self).slots() == old(self).slots().update(
                handle.idx() - 1,
                old(self).empty_val(),
            ),
            final(self).bitmap() == old(self).bitmap().update(
                byte_of(handle.idx()),
                old(self).bitmap()[byte_of(handle.idx())] & !(1u8 << bit_of(handle.idx())),
            ),
            final(self).alloc_count() == old(self).alloc_count() - 1,
            final(self).empty_val() == old(self).empty_val(),
    {
        proof {
            lemma_handle_byte(handle.idx());
        }
        let slot = ((handle.index - 2) / 8) as usize;
        let pos = ((handle.index - 2) % 8) as u8;
        let b = self.free_space[slot];
        let cleared: u8 = b & !(1u8 << pos);
        self.free_space[slot] = cleared;
        let empty = self.empty;
        self.data[handle.index as usize - 1] = empty;
        proof {
            assert(slot as int == byte_of(handle.idx()));
            assert(pos == bit_of(handle.idx()));
            lemma_clear_bit(b, pos);
            lemma_counts_update(old(self).bitmap(), slot as int, cleared);
            assert(self.bitmap() == old(self).bitmap().update(slot as int, cleared));
            assert(!self.occupied(handle.idx()));
            assert forall|j: int|
                valid_handle(j) && j != handle.idx() implies self.occupied(j) == old(self).occupied(
                j,
            ) by {
                lemma_handle_byte(j);
                if byte_of(j) == slot as int {
                    assert(bit_of(j) != pos);
                    assert(bit_at(cleared, bit_of(j)) == bit_at(b, bit_of(j)));
                }
            }
            assert forall|h: int|
                valid_handle(h) && !self.occupied(h) implies #[trigger] self.val_at(h)
                == self.empty_val() by {
                if h == handle.idx() {
                    assert(self.val_at(h) == old(self).empty_val());
                } else {
                    assert(!old(self).occupied(h));
                    assert(self.val_at(h) == old(self).val_at(h));
                }
            }
        }
    }

    /// Frees a whole 8-aligned group at once and resets its eight slots to
    /// the empty value.
    pub fn remove_8_aligned(&mut self, handle: ArenaHandle<T>)
        requires
            old(self).wf(),
            valid_handle(handle.idx()),
            valid_handle(handle.idx() + 7),
            (handle.idx() - 2) % 8 == 0,
            old(self).bitmap()[byte_of(handle.idx())] == 255u8,
        ensures
            final(self).wf(),
            final(self).bitmap() == old(self).bitmap().update(byte_of(handle.idx()), 0u8),
            forall|k: int| 0 <= k < 8 ==> !#[trigger] final(self).occupied(handle.idx() + k),
            forall|j: int|
                valid_handle(j) && !(handle.idx() <= j < handle.idx() + 8) ==> final(self).occupied(
                    j,
                ) == old(self).occupied(j),
            forall|k: int|
                0 <= k < 8 ==> #[trigger] final(self).val_at(handle.idx() + k) == old(self).empty_val(),
            forall|j: int|
                valid_slot(j) && !(handle.idx() <= j < handle.idx() + 8) ==> #[trigger] final(self).val_at(j) == old(self).val_at(j),
            final(self).alloc_count() == old(self).alloc_count() - 8,
            final(self).free_groups() == old(self).free_groups() + 1,
            final(self).empty_val() == old(self).empty_val(),
    {
        proof {
            lemma_handle_byte(handle.idx());
            lemma_byte_ones_full(255u8);
        }
        let empty = self.empty;
        let mut k: u32 = 0;
        while k < 8
            invariant
                k <= 8,
                old(self).wf(),
                self.wf(),
                valid_handle(handle.idx()),
                valid_handle(handle.idx() + 7),
                handle.index as int == handle.idx(),
                old(self).bitmap()[byte_of(handle.idx())] == 255u8,
                handle.idx() == 8 * byte_of(handle.idx()) + 2,
                0 <= byte_of(handle.idx()) < FREE_SIZE as int,
                self.bitmap() == old(self).bitmap(),
                self.empty_val() == old(self).empty_val(),
                self.slots().len() == old(self).slots().len(),
                empty == old(self).empty_val(),
                forall|i: int|
                    0 <= i < k as int ==> #[trigger] self.val_at(handle.idx() + i) == old(self).empty_val(),
                forall|j: int|
                    valid_slot(j) && !(handle.idx() <= j < handle.idx() + k as int)
                        ==> #[trigger] self.val_at(j) == old(self).val_at(j),
            decreases 8 - k,
        {
            let ghost prev = *self;
            let i = (handle.index + k) as usize - 1;
            self.data[i] = empty;
            proof {
                assert(self.slots() == prev.slots().update(handle.idx() + k as int - 1, empty));
                lemma_byte_ones_full(255u8);
                lemma_byte_handle(byte_of(handle.idx()), k as int);
                assert(bit_at(prev.bitmap()[byte_of(handle.idx() + k as int)], bit_of(
                    handle.idx() + k as int,
                )));
                assert(prev.occupied(handle.idx() + k as int));
                assert forall|i2: int|
                    0 <= i2 < k as int + 1 implies #[trigger] self.val_at(handle.idx() + i2) == old(self).empty_val() by {
                    if i2 < k as int {
                        assert(self.val_at(handle.idx() + i2) == prev.val_at(handle.idx() + i2));
                    }
                }
                assert forall|j: int|
                    valid_slot(j) && !(handle.idx() <= j < handle.idx() + k as int
                        + 1) implies #[trigger] self.val_at(j) == old(self).val_at(j) by {
                    assert(self.val_at(j) == prev.val_at(j));
                }
                Self::lemma_wf_after_write(prev, *self, handle.idx() + k as int);
            }
            k = k + 1;
        }
        let slot = ((handle.index - 2) / 8) as usize;
        let ghost mid = *self;
        self.free_space[slot] = 0;
        proof {
            assert(slot as int == byte_of(handle.idx()));
            lemma_byte_ones_full(0u8);
            lemma_counts_update(mid.bitmap(), slot as int, 0u8);
            assert(self.bitmap() == old(self).bitmap().update(slot as int, 0u8));
            assert forall|kk: int| 0 <= kk < 8 implies !#[trigger] self.occupied(
                handle.idx() + kk,
            ) by {
                lemma_byte_handle(slot as int, kk);
                assert(self.bitmap()[slot as int] == 0u8);
                assert(!bit_at(0u8, bit_of(handle.idx() + kk)));
            }
            assert forall|j: int|
                valid_handle(j) && !(handle.idx() <= j < handle.idx() + 8) implies self.occupied(j)
                == old(self).occupied(j) by {
                lemma_handle_byte(j);
                assert(j == 8 * byte_of(j) + (bit_of(j) as int) + 2);
                assert(byte_of(j) != slot as int);
            }
            assert forall|h: int|
                valid_handle(h) && !self.occupied(h) implies #[trigger] self.val_at(h)
                == self.empty_val() by {
                assert(self.slots() == mid.slots());
                if handle.idx() <= h < handle.idx() + 8 {
                    assert(mid.val_at(handle.idx() + (h - handle.idx())) == old(self).empty_val());
                } else {
                    lemma_handle_byte(h);
                    assert(!mid.occupied(h));
                    assert(!old(self).occupied(h));
                    assert(mid.val_at(h) == old(self).val_at(h));
                }
            }
            assert forall|k: int| 0 <= k < 8 implies #[trigger] self.val_at(handle.idx() + k)
                == old(self).empty_val() by {
                assert(self.slots() == mid.slots());
                assert(mid.val_at(handle.idx() + k) == old(self).empty_val());
            }
            assert forall|j: int|
                valid_slot(j) && !(handle.idx() <= j < handle.idx() + 8) implies #[trigger] self
                .val_at(j) == old(self).val_at(j) by {
                assert(self.slots() == mid.slots());
                assert(mid.val_at(j) == old(self).val_at(j));
            }
        }
    }

    /// Counts the allocated slots by walking every bit of the bitmap.
    pub fn get_allocation_count(&self) -> (r: u32)
        requires
            self.wf(),
        ensures
            r as int == self.alloc_count(),
    {
        let n = self.free_space.len();
        let mut count: u32 = 0;
        let mut g: usize = 0;
        proof {
            lemma_counts_bounds(self.bitmap());
            assert(self.bitmap().take(0) =~= Seq::<u8>::empty());
        }
        while g < n
            invariant
                self.wf(),
                n == FREE_SIZE,
                g <= n,
                count as int == count_ones(self.bitmap().take(g as int)),
                count as int <= 8 * g as int,
            decreases n - g,
        {
            let b = self.free_space[g];
            let mut inner: u32 = 0;
            let mut i: u8 = 0;
            while i < 8
                invariant
                    i <= 8,
                    inner as int == byte_ones_upto(b, i as int),
                    inner <= i,
                decreases 8 - i,
            {
                let mask: u8 = 1u8 << i;
                proof {
                    assert((b & (1u8 << i) == (1u8 << i)) == ((b >> i) & 1 == 1)) by (bit_vector)
                        requires
                            i < 8,
                    ;
                }
                if b & mask == mask {
                    inner = inner + 1;
                }
                i = i + 1;
            }
            proof {
                lemma_count_ones_take_step(self.bitmap(), g as int);
                lemma_counts_bounds(self.bitmap().take(g as int + 1));
            }
            count = count + inner;
            g = g + 1;
        }
        proof {
            assert(self.bitmap().take(n as int) =~= self.bitmap());
        }
        count
    }
}

} // verus!
