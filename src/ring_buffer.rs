use vstd::arithmetic::div_mod::{lemma_mod_sub_multiples_vanish, lemma_small_mod};
use vstd::arithmetic::power2::{lemma_pow2_strictly_increases, lemma_pow2_unfold, pow2};
use vstd::bits::lemma_usize_low_bits_mask_is_mod;
use vstd::layout::unsigned_int_max_values;
use vstd::prelude::*;

verus! {

/// The largest capacity a buffer may reach: the largest power of two that a
/// `usize` holds.
pub const MAX_CAPACITY: usize = usize::MAX / 2 + 1;

/// A capacity that an allocated buffer may have: a power of two, at least 2.
pub open spec fn is_ring_capacity(c: nat) -> bool {
    c >= 2 && exists|k: nat| pow2(k) == c
}

/// The smallest power of two that is at least `target`, searching upwards
/// from `c`.
pub open spec fn pow2_from(target: nat, c: nat) -> nat
    decreases steps_to(target, c),
{
    if c == 0 || c >= target {
        c
    } else {
        pow2_from(target, 2 * c)
    }
}

/// How far `c` is below `target`.
pub open spec fn steps_to(target: nat, c: nat) -> nat {
    if c >= target {
        0
    } else {
        (target - c) as nat
    }
}

/// The capacity allocated to hold `target` slots: the next power of two at
/// or above `target`, and never less than 2.
pub open spec fn rounded_capacity(target: nat) -> nat {
    pow2_from(target, 2)
}

/// `x` reduced once by `c`, for `x < 2 * c`.
pub open spec fn wrap(x: int, c: int) -> int {
    if x < c {
        x
    } else {
        x - c
    }
}

/// Masking with `c - 1` is reduction modulo `c` when `c` is a power of two.
proof fn lemma_mask_is_mod(x: usize, c: usize)
    requires
        is_ring_capacity(c as nat),
    ensures
        x & ((c - 1) as usize) == x % c,
{
    let k = choose|k: nat| pow2(k) == c;
    unsigned_int_max_values();
    if k >= usize::BITS {
        if k > usize::BITS {
            lemma_pow2_strictly_increases(usize::BITS as nat, k);
        }
        assert(false);
    }
    lemma_usize_low_bits_mask_is_mod(x, k);
}

/// A cursor advanced by less than one full turn, and masked, wraps once.
proof fn lemma_mask_wraps(x: usize, c: usize)
    requires
        is_ring_capacity(c as nat),
        x < 2 * c,
    ensures
        x & ((c - 1) as usize) == wrap(x as int, c as int),
{
    lemma_mask_is_mod(x, c);
    if x < c {
        lemma_small_mod(x as nat, c as nat);
    } else {
        lemma_small_mod((x - c) as nat, c as nat);
        lemma_mod_sub_multiples_vanish(x as int, c as int);
    }
}

/// A power of two that fits in a `usize` is at most `MAX_CAPACITY`.
proof fn lemma_capacity_fits(c: nat)
    requires
        is_ring_capacity(c),
        c <= usize::MAX,
    ensures
        c <= MAX_CAPACITY,
{
    let k = choose|k: nat| pow2(k) == c;
    unsigned_int_max_values();
    let b = usize::BITS as nat;
    if k >= b {
        if k > b {
            lemma_pow2_strictly_increases(b, k);
        }
        assert(false);
    }
    lemma_pow2_unfold(b);
    assert(MAX_CAPACITY == pow2((b - 1) as nat));
    if k < b - 1 {
        lemma_pow2_strictly_increases(k, (b - 1) as nat);
    }
}

proof fn lemma_pow2_from_is_capacity(target: nat, c: nat)
    requires
        is_ring_capacity(c),
    ensures
        is_ring_capacity(pow2_from(target, c)),
        pow2_from(target, c) >= target,
        pow2_from(target, c) >= c,
    decreases steps_to(target, c),
{
    if c < target {
        let k = choose|k: nat| pow2(k) == c;
        lemma_pow2_unfold(k + 1);
        assert(pow2(k + 1) == 2 * c);
        lemma_pow2_from_is_capacity(target, 2 * c);
    }
}

/// Of two powers of two, the smaller one at least doubles to the larger.
proof fn lemma_pow2_gap(d: nat, c: nat)
    requires
        is_ring_capacity(d),
        is_ring_capacity(c),
        d < c,
    ensures
        2 * d <= c,
{
    let a = choose|k: nat| pow2(k) == d;
    let b = choose|k: nat| pow2(k) == c;
    if a >= b {
        if a > b {
            lemma_pow2_strictly_increases(b, a);
        }
        assert(false);
    }
    lemma_pow2_unfold(a + 1);
    if a + 1 < b {
        lemma_pow2_strictly_increases(a + 1, b);
    }
}

/// Searching upwards from a power of two `d` at most `c`, the capacity for
/// one slot more than `c` is twice `c`.
proof fn lemma_pow2_from_doubles(c: nat, d: nat)
    requires
        is_ring_capacity(c),
        is_ring_capacity(d),
        d <= c,
    ensures
        pow2_from(c + 1, d) == 2 * c,
    decreases c - d,
{
    let k = choose|k: nat| pow2(k) == d;
    lemma_pow2_unfold(k + 1);
    assert(pow2(k + 1) == 2 * d);
    if d < c {
        lemma_pow2_gap(d, c);
        lemma_pow2_from_doubles(c, 2 * d);
    } else {
        assert(pow2_from(c + 1, 2 * c) == 2 * c);
    }
}

/// Growing a full power-of-two allocation by one slot doubles it.
proof fn lemma_rounded_doubles(c: nat)
    requires
        is_ring_capacity(c),
    ensures
        rounded_capacity(c + 1) == 2 * c,
{
    lemma_pow2_unfold(1);
    vstd::arithmetic::power2::lemma2_to64();
    assert(is_ring_capacity(2));
    lemma_pow2_from_doubles(c, 2);
}

/// The capacity to allocate for `target` slots, computed by doubling.
fn round_capacity(target: usize) -> (c: usize)
    requires
        target <= MAX_CAPACITY,
    ensures
        c == rounded_capacity(target as nat),
        is_ring_capacity(c as nat),
        c >= target,
        c <= MAX_CAPACITY,
{
    let mut c: usize = 2;
    proof {
        lemma_pow2_unfold(1);
        vstd::arithmetic::power2::lemma2_to64();
        assert(pow2(1) == 2);
    }
    while c < target
        invariant
            target <= MAX_CAPACITY,
            is_ring_capacity(c as nat),
            pow2_from(target as nat, c as nat) == rounded_capacity(target as nat),
        decreases steps_to(target as nat, c as nat),
    {
        proof {
            let k = choose|k: nat| pow2(k) == c;
            lemma_pow2_unfold(k + 1);
            assert(pow2(k + 1) == 2 * c);
        }
        c = c * 2;
    }
    proof {
        lemma_pow2_from_is_capacity(target as nat, c as nat);
        lemma_capacity_fits(c as nat);
    }
    c
}

/// `x` advanced by `count` and masked: the cursor arithmetic of the buffer.
fn masked_add(x: usize, count: usize, mask: usize) -> (r: usize)
    requires
        is_ring_capacity((mask + 1) as nat),
        mask < MAX_CAPACITY,
        x <= mask,
        count <= mask,
    ensures
        r == wrap(x + count, mask + 1),
{
    let y = x + count;
    proof {
        lemma_mask_wraps(y, (mask + 1) as usize);
    }
    y & mask
}

/// A growable first-in first-out queue stored in one power-of-two sized
/// allocation, addressed by a read cursor and a write cursor.
///
/// One slot is always left free, so that equal cursors mean an empty buffer
/// and a write cursor one behind the read cursor means a full one. A slot
/// holds `None` when it is not initialised.
pub struct RingBuffer<T> {
    data: Vec<Option<T>>,
    /// The index of the element to read next.
    read: usize,
    /// The index of the element to write next.
    write: usize,
}

/// The number of queued elements in `c` slots, from the distance between the
/// cursors.
pub open spec fn queue_len(c: nat, read: int, write: int) -> nat {
    if read <= write {
        (write - read) as nat
    } else {
        (c - read + write) as nat
    }
}

/// Every queued slot of `data` is initialised.
pub open spec fn queued_filled<T>(data: Seq<Option<T>>, read: int, write: int) -> bool {
    forall|i: int|
        0 <= i < queue_len(data.len(), read, write) ==> (#[trigger] data[wrap(
            read + i,
            data.len() as int,
        )]) is Some
}

/// The queued elements of `data`, from the read cursor on.
pub open spec fn queued<T>(data: Seq<Option<T>>, read: int, write: int) -> Seq<T> {
    Seq::new(
        queue_len(data.len(), read, write),
        |i: int| data[wrap(read + i, data.len() as int)]->0,
    )
}

impl<T> View for RingBuffer<T> {
    type V = Seq<T>;

    /// The queued elements, from the one `pop` returns next to the newest.
    closed spec fn view(&self) -> Seq<T> {
        queued(self.data@, self.read as int, self.write as int)
    }
}

impl<T> RingBuffer<T> {
    /// The number of slots in the allocation.
    pub closed spec fn spec_capacity(&self) -> nat {
        self.data@.len()
    }

    /// The slot of the element to read next.
    pub closed spec fn read_cursor(&self) -> nat {
        self.read as nat
    }

    /// The slot to write next.
    pub closed spec fn write_cursor(&self) -> nat {
        self.write as nat
    }

    /// Both cursors are where they are in `other`.
    pub open spec fn same_cursors(&self, other: &Self) -> bool {
        self.read_cursor() == other.read_cursor() && self.write_cursor() == other.write_cursor()
    }

    /// The number of queued elements.
    closed spec fn spec_len(&self) -> nat {
        queue_len(self.data@.len(), self.read as int, self.write as int)
    }

    /// The physical slot of the `i`-th queued element.
    closed spec fn slot(&self, i: int) -> int {
        wrap(self.read + i, self.data@.len() as int)
    }

    /// The physical slot of the `i`-th free slot after the write cursor.
    closed spec fn free_slot(&self, i: int) -> int {
        wrap(self.write + i, self.data@.len() as int)
    }

    /// The number of elements that can be pushed without growing.
    pub closed spec fn spare_len(&self) -> nat {
        if self.data@.len() == 0 {
            0
        } else {
            (self.data@.len() - 1 - self.spec_len()) as nat
        }
    }

    /// The free slots in the order in which pushes fill them.
    pub closed spec fn spare_view(&self) -> Seq<Option<T>> {
        Seq::new(self.spare_len(), |i: int| self.data@[self.free_slot(i)])
    }

    /// The queue after committing the first `k` free slots: the values written
    /// there follow the queued elements.
    pub open spec fn committed(&self, k: nat) -> Seq<T> {
        self@ + self.spare_view().subrange(0, k as int).map_values(|v: Option<T>| v->0)
    }

    /// The buffer's invariant: a power-of-two capacity (or none at all, which
    /// is always the case for zero-sized elements), cursors inside it, and an
    /// initialised slot for every queued element.
    pub closed spec fn wf(&self) -> bool {
        let c = self.data@.len();
        &&& c <= MAX_CAPACITY
        &&& if c == 0 {
            self.read == 0 && self.write == 0
        } else {
            is_ring_capacity(c) && self.read < c && self.write < c
        }
        &&& vstd::layout::size_of::<T>() == 0 ==> c == 0
        &&& queued_filled(self.data@, self.read as int, self.write as int)
    }

    /// The sizes of a buffer: the queued elements and the free slots fill all
    /// slots but one, and the capacity is at most `MAX_CAPACITY`.
    pub proof fn lemma_sizes(&self)
        requires
            self.wf(),
        ensures
            self.spec_capacity() <= MAX_CAPACITY,
            self.spec_capacity() == 0 ==> self@.len() == 0 && self.spare_len() == 0,
            self.spec_capacity() > 0 ==> self@.len() + self.spare_len() + 1 == self.spec_capacity(),
            self.spare_view().len() == self.spare_len(),
    {
    }

    /// Creates an empty buffer without allocating.
    pub fn new() -> (r: Self)
        ensures
            r.wf(),
            r@ == Seq::<T>::empty(),
            r.spec_capacity() == 0,
            r.read_cursor() == 0 && r.write_cursor() == 0,
    {
        let r = RingBuffer { data: Vec::new(), read: 0, write: 0 };
        assert(r@ =~= Seq::<T>::empty());
        r
    }

    /// A vector of `n` empty slots.
    fn empty_slots(n: usize) -> (v: Vec<Option<T>>)
        ensures
            v@.len() == n,
            forall|i: int| 0 <= i < n ==> (#[trigger] v@[i]) is None,
    {
        let mut v: Vec<Option<T>> = Vec::with_capacity(n);
        let mut i: usize = 0;
        while i < n
            invariant
                i <= n,
                v@.len() == i,
                forall|j: int| 0 <= j < i ==> (#[trigger] v@[j]) is None,
            decreases n - i,
        {
            v.push(None);
            i = i + 1;
        }
        v
    }

    /// The capacity that a buffer with capacity `capacity` has after
    /// `reserve(count)`.
    pub open spec fn reserved_capacity(capacity: nat, count: nat) -> nat {
        if vstd::layout::size_of::<T>() == 0 || (capacity == 0 && count == 0) {
            capacity
        } else if capacity == 0 {
            rounded_capacity(count + 1)
        } else {
            rounded_capacity(capacity + count)
        }
    }

    /// The bound on the slots that growth may be asked for: half of
    /// `isize::MAX` bytes of slots, since the allocation may round up to
    /// twice the request, and never above `MAX_CAPACITY`.
    pub open spec fn slot_limit() -> nat {
        let size = vstd::layout::size_of::<Option<T>>();
        if size == 0 {
            MAX_CAPACITY as nat
        } else if (isize::MAX as nat) / 2 / size < MAX_CAPACITY {
            (isize::MAX as nat) / 2 / size
        } else {
            MAX_CAPACITY as nat
        }
    }

    /// Returns `slot_limit`: how many slots growth may be asked for.
    pub fn max_slots() -> (r: usize)
        ensures
            r == Self::slot_limit(),
    {
        let size = core::mem::size_of::<Option<T>>();
        if size == 0 {
            MAX_CAPACITY
        } else {
            let b = (isize::MAX as usize) / 2 / size;
            if b < MAX_CAPACITY {
                b
            } else {
                MAX_CAPACITY
            }
        }
    }

    /// Creates an empty buffer with room for at least `capacity` elements.
    /// The allocation is the next power of two above `capacity`, so that one
    /// slot stays free; nothing is allocated for zero elements or for
    /// zero-sized elements.
    pub fn with_capacity(capacity: usize) -> (r: Self)
        requires
            capacity + 1 <= Self::slot_limit(),
        ensures
            r.wf(),
            r@ == Seq::<T>::empty(),
            r.spec_capacity() == Self::reserved_capacity(0, capacity as nat),
            r.read_cursor() == 0 && r.write_cursor() == 0,
    {
        let mut r = Self::new();
        r.reserve(capacity);
        r
    }

    /// Ensures room for at least `count` more elements beyond those queued.
    ///
    /// A new allocation is made, sized to the next power of two at or above
    /// the old capacity plus `count` (plus one free slot when there was no
    /// allocation), and the queued elements move into it in order from its
    /// first slot. Nothing happens when `count` is 0 and nothing was
    /// allocated, or when the elements are zero-sized.
    pub fn reserve(&mut self, count: usize)
        requires
            old(self).wf(),
            old(self).spec_capacity() + count + 1 <= Self::slot_limit(),
        ensures
            final(self).wf(),
            final(self)@ == old(self)@,
            final(self).spec_capacity() == Self::reserved_capacity(
                old(self).spec_capacity(),
                count as nat,
            ),
            final(self).spec_capacity() > 0 ==> old(self)@.len() + count < final(self).spec_capacity(),
            !(vstd::layout::size_of::<T>() == 0 || (old(self).spec_capacity() == 0 && count == 0))
                ==> final(self).read_cursor() == 0 && final(self).write_cursor() == old(self)@.len(),
            vstd::layout::size_of::<T>() == 0 || (old(self).spec_capacity() == 0 && count == 0)
                ==> final(self).same_cursors(old(self)),
            vstd::layout::size_of::<T>() != 0 && (old(self).spec_capacity() > 0 || count > 0)
                ==> final(self).spec_capacity() > 0,
    {
        let c = self.data.len();
        if core::mem::size_of::<T>() == 0 || (c == 0 && count == 0) {
            return;
        }
        let target = if c == 0 {
            count + 1
        } else {
            c + count
        };
        let new_cap = round_capacity(target);
        let mut fresh = Self::empty_slots(new_cap);
        if c == 0 {
            self.data = fresh;
            assert(self@ =~= old(self)@);
            return;
        }
        let len = self.len();
        let mask = self.mask();
        let ghost old_view = self@;
        let ghost old_data = self.data@;
        let mut i: usize = 0;
        while i < len
            invariant
                old(self).wf(),
                self.read == old(self).read,
                self.write == old(self).write,
                self.data@.len() == c,
                old(self).data@.len() == c,
                c > 0,
                is_ring_capacity(c as nat),
                c <= MAX_CAPACITY,
                mask + 1 == c,
                old_data == old(self).data@,
                old_view == old(self)@,
                len == old_view.len(),
                len < c,
                len < new_cap,
                fresh@.len() == new_cap,
                i <= len,
                forall|j: int| 0 <= j < i ==> (#[trigger] fresh@[j]) == Some(old_view[j]),
                forall|j: int|
                    i <= j < len ==> (#[trigger] self.data@[old(self).slot(j)]) == old_data[old(self).slot(j)],
            decreases len - i,
        {
            let s = masked_add(self.read, i, mask);
            proof {
                assert(old_data[old(self).slot(i as int)] is Some);
            }
            let v = self.data[s].take();
            fresh[i] = v;
            i = i + 1;
        }
        self.data = fresh;
        self.read = 0;
        self.write = len;
        assert(self@ =~= old_view);
    }

    /// Pushes `value` at the write end, first growing the allocation when the
    /// buffer is full. Zero-sized values are not stored: such a buffer never
    /// allocates and stays empty.
    pub fn push(&mut self, value: T)
        requires
            old(self).wf(),
            old(self)@.len() + 3 <= Self::slot_limit(),
        ensures
            final(self).wf(),
            vstd::layout::size_of::<T>() != 0 ==> final(self)@ == old(self)@.push(value),
            vstd::layout::size_of::<T>() == 0 ==> final(self)@ == old(self)@,
            final(self).spec_capacity() == if old(self)@.len() + 1 >= old(self).spec_capacity() {
                Self::reserved_capacity(old(self).spec_capacity(), 1)
            } else {
                old(self).spec_capacity()
            },
            old(self)@.len() + 1 == old(self).spec_capacity() ==> final(self).spec_capacity() == 2
                * old(self).spec_capacity(),
            old(self)@.len() + 1 < old(self).spec_capacity() ==> final(self).read_cursor()
                == old(self).read_cursor() && final(self).write_cursor() == wrap(
                (old(self).write_cursor() + 1) as int,
                old(self).spec_capacity() as int,
            ),
            old(self)@.len() + 1 >= old(self).spec_capacity() && vstd::layout::size_of::<T>() != 0
                ==> final(self).read_cursor() == 0 && final(self).write_cursor() == old(self)@.len() + 1,
            vstd::layout::size_of::<T>() == 0 ==> final(self).same_cursors(old(self)),
    {
        proof {
            if self.data@.len() > 0 {
                lemma_rounded_doubles(self.data@.len());
            }
        }
        if self.full() {
            self.reserve(1);
        }
        if self.data.len() == 0 {
            return;
        }
        let w = self.write;
        let mask = self.mask();
        let ghost before = *self;
        self.data[w] = Some(value);
        self.write = masked_add(w, 1, mask);
        let ghost c = self.data@.len() as int;
        assert(queued_filled(self.data@, self.read as int, self.write as int)) by {
            assert forall|i: int| 0 <= i < self.spec_len() implies (#[trigger] self.data@[wrap(
                self.read + i,
                c,
            )]) is Some by {
                if i < before.spec_len() {
                    assert(before.data@[wrap(before.read + i, c)] is Some);
                }
            }
        }
        assert(self@ =~= before@.push(value));
    }

    /// Removes and returns the element at the read end, or `None` when the
    /// buffer is empty.
    pub fn pop(&mut self) -> (r: Option<T>)
        requires
            old(self).wf(),
        ensures
            final(self).wf(),
            final(self).spec_capacity() == old(self).spec_capacity(),
            old(self)@.len() == 0 ==> r is None && final(self)@ == old(self)@,
            old(self)@.len() > 0 ==> r == Some(old(self)@[0]) && final(self)@ == old(self)@.drop_first(),
            old(self)@.len() == 0 ==> final(self).same_cursors(old(self)),
            old(self)@.len() > 0 ==> final(self).read_cursor() == wrap(
                (old(self).read_cursor() + 1) as int,
                old(self).spec_capacity() as int,
            ) && final(self).write_cursor() == old(self).write_cursor(),
    {
        if self.empty() {
            return None;
        }
        let r = self.read;
        let mask = self.mask();
        self.read = masked_add(r, 1, mask);
        let v = self.data[r].take();
        let ghost c = self.data@.len() as int;
        assert(queued_filled(self.data@, self.read as int, self.write as int)) by {
            assert forall|i: int| 0 <= i < self.spec_len() implies (#[trigger] self.data@[wrap(
                self.read + i,
                c,
            )]) is Some by {
                assert(old(self).data@[wrap(old(self).read + (i + 1), c)] is Some);
            }
        }
        assert(self@ =~= old(self)@.drop_first());
        v
    }

    /// The element `index` places after the read end, or `None` when
    /// `index` is not below the length.
    pub fn get(&self, index: usize) -> (r: Option<&T>)
        requires
            self.wf(),
        ensures
            index < self@.len() ==> r == Some(&self@[index as int]),
            index >= self@.len() ==> r is None,
    {
        if index >= self.len() {
            return None;
        }
        let s = masked_add(self.read, index, self.mask());
        assert(self.data@[self.slot(index as int)] is Some);
        self.data[s].as_ref()
    }

    /// A mutable reference to the element `index` places after the read end,
    /// or `None` when `index` is not below the length.
    pub fn get_mut(&mut self, index: usize) -> (r: Option<&mut T>)
        requires
            old(self).wf(),
        ensures
            final(self).wf(),
            final(self).spec_capacity() == old(self).spec_capacity(),
            index < old(self)@.len() ==> r is Some && *r.unwrap() == old(self)@[index as int]
                && final(self)@ == old(self)@.update(index as int, *final(r.unwrap())),
            index >= old(self)@.len() ==> r is None && final(self)@ == old(self)@,
            final(self).same_cursors(old(self)),
    {
        if index >= self.len() {
            return None;
        }
        let s = masked_add(self.read, index, self.mask());
        assert(self.data@[self.slot(index as int)] is Some);
        proof {
            let c = self.data@.len() as int;
            assert forall|o: Option<T>| o is Some implies #[trigger] queued_filled(
                self.data@.update(s as int, o),
                self.read as int,
                self.write as int,
            ) by {
                let d = self.data@.update(s as int, o);
                assert forall|i: int| 0 <= i < self.spec_len() implies (#[trigger] d[wrap(
                    self.read + i,
                    c,
                )]) is Some by {
                    assert(self.data@[wrap(self.read + i, c)] is Some);
                }
            }
            assert forall|o: Option<T>| #[trigger]
                queued(self.data@.update(s as int, o), self.read as int, self.write as int)
                    =~= self@.update(index as int, o->0) by {}
        }
        self.data[s].as_mut()
    }

    /// Removes and drops every element, and moves both cursors to the start
    /// of the allocation, which is kept.
    pub fn clear(&mut self)
        requires
            old(self).wf(),
        ensures
            final(self).wf(),
            final(self)@ == Seq::<T>::empty(),
            final(self).spec_capacity() == old(self).spec_capacity(),
            final(self).read_cursor() == 0 && final(self).write_cursor() == 0,
    {
        while !self.empty()
            invariant
                self.wf(),
                self.spec_capacity() == old(self).spec_capacity(),
            decreases self@.len(),
        {
            self.pop();
        }
        self.read = 0;
        self.write = 0;
        assert(self@ =~= Seq::<T>::empty());
    }

    /// Moves the read cursor `count` elements forward, giving them up.
    pub fn set_read_cursor(&mut self, count: usize)
        requires
            old(self).wf(),
            count <= old(self)@.len(),
        ensures
            final(self).wf(),
            final(self).spec_capacity() == old(self).spec_capacity(),
            final(self)@ == old(self)@.subrange(count as int, old(self)@.len() as int),
            final(self).write_cursor() == old(self).write_cursor(),
            old(self).spec_capacity() > 0 ==> final(self).read_cursor() == wrap(
                (old(self).read_cursor() + count) as int,
                old(self).spec_capacity() as int,
            ),
            old(self).spec_capacity() == 0 ==> final(self).read_cursor() == 0,
    {
        if count == 0 {
            assert(old(self)@.subrange(0, old(self)@.len() as int) =~= old(self)@);
            return;
        }
        let mask = self.mask();
        self.read = masked_add(self.read, count, mask);
        let ghost c = self.data@.len() as int;
        assert(queued_filled(self.data@, self.read as int, self.write as int)) by {
            assert forall|i: int| 0 <= i < self.spec_len() implies (#[trigger] self.data@[wrap(
                self.read + i,
                c,
            )]) is Some by {
                assert(old(self).data@[wrap(old(self).read + (i + count), c)] is Some);
            }
        }
        assert(self@ =~= old(self)@.subrange(count as int, old(self)@.len() as int));
    }

    /// The number of free slots.
    pub fn spare_count(&self) -> (r: usize)
        requires
            self.wf(),
        ensures
            r == self.spare_len(),
    {
        if self.data.len() == 0 {
            0
        } else {
            self.data.len() - 1 - self.len()
        }
    }

    /// Queues the first `count` free slots when there are that many and each
    /// of them holds a value, and returns `true`; otherwise changes nothing
    /// and returns `false`. This is the checked form of `set_write_cursor`.
    pub fn commit(&mut self, count: usize) -> (r: bool)
        requires
            old(self).wf(),
        ensures
            final(self).wf(),
            final(self).spec_capacity() == old(self).spec_capacity(),
            r == (count <= old(self).spare_len() && forall|i: int|
                0 <= i < count ==> (#[trigger] old(self).spare_view()[i]) is Some),
            r ==> final(self)@ == old(self).committed(count as nat),
            !r ==> final(self)@ == old(self)@ && final(self).spare_view() == old(self).spare_view()
                && final(self).same_cursors(old(self)),
            r && old(self).spec_capacity() > 0 ==> final(self).read_cursor() == old(self).read_cursor()
                && final(self).write_cursor() == wrap(
                (old(self).write_cursor() + count) as int,
                old(self).spec_capacity() as int,
            ),
    {
        if count > self.spare_count() {
            return false;
        }
        let mask = self.mask();
        let mut i: usize = 0;
        while i < count
            invariant
                self.wf(),
                *self == *old(self),
                count <= self.spare_len(),
                i <= count,
                count > 0 ==> mask + 1 == self.spec_capacity(),
                forall|j: int| 0 <= j < i ==> (#[trigger] self.spare_view()[j]) is Some,
            decreases count - i,
        {
            let s = masked_add(self.write, i, mask);
            if self.data[s].is_none() {
                assert(!(self.spare_view()[i as int] is Some));
                return false;
            }
            i = i + 1;
        }
        self.set_write_cursor(count);
        true
    }

    /// Moves the write cursor `count` slots forward, queueing the values that
    /// were written into the first `count` free slots.
    pub fn set_write_cursor(&mut self, count: usize)
        requires
            old(self).wf(),
            count <= old(self).spare_len(),
            forall|i: int| 0 <= i < count ==> (#[trigger] old(self).spare_view()[i]) is Some,
        ensures
            final(self).wf(),
            final(self).spec_capacity() == old(self).spec_capacity(),
            final(self)@ == old(self).committed(count as nat),
            final(self).read_cursor() == old(self).read_cursor(),
            old(self).spec_capacity() > 0 ==> final(self).write_cursor() == wrap(
                (old(self).write_cursor() + count) as int,
                old(self).spec_capacity() as int,
            ),
            old(self).spec_capacity() == 0 ==> final(self).write_cursor() == 0,
    {
        let ghost added = old(self).spare_view().subrange(0, count as int).map_values(
            |v: Option<T>| v->0,
        );
        if count == 0 {
            assert(old(self)@ + added =~= old(self)@);
            return;
        }
        let mask = self.mask();
        self.write = masked_add(self.write, count, mask);
        let ghost c = self.data@.len() as int;
        assert(queued_filled(self.data@, self.read as int, self.write as int)) by {
            assert forall|i: int| 0 <= i < self.spec_len() implies (#[trigger] self.data@[wrap(
                self.read + i,
                c,
            )]) is Some by {
                if i >= old(self).spec_len() {
                    assert(old(self).spare_view()[i - old(self).spec_len()] is Some);
                } else {
                    assert(old(self).data@[wrap(old(self).read + i, c)] is Some);
                }
            }
        }
        assert(self@ =~= old(self)@ + added);
    }

    /// Two regions handed out kept their lengths `n0` and `n1`, and every slot
    /// in them is initialised.
    pub open spec fn regions_kept(r0: Seq<Option<T>>, n0: nat, r1: Seq<Option<T>>, n1: nat) -> bool {
        &&& r0.len() == n0
        &&& r1.len() == n1
        &&& forall|i: int| 0 <= i < n0 + n1 ==> (#[trigger] (r0 + r1)[i]) is Some
    }

    /// The queued elements' slots as one or two contiguous regions, in order
    /// from the read end: two when the queue wraps past the end of the
    /// allocation.
    ///
    /// The promises on the buffer afterwards hold as long as the regions keep
    /// their lengths, as slices always do, and every slot in them stays
    /// initialised.
    pub fn as_mut_slices(&mut self) -> (r: (&mut [Option<T>], &mut [Option<T>]))
        requires
            old(self).wf(),
        ensures
            r.0@ + r.1@ == old(self)@.map_values(|v: T| Some(v)),
            r.0@.len() == if old(self).read_cursor() <= old(self).write_cursor() {
                old(self).write_cursor() - old(self).read_cursor()
            } else {
                old(self).spec_capacity() - old(self).read_cursor()
            },
            r.1@.len() > 0 ==> old(self).read_cursor() > old(self).write_cursor(),
            final(self).same_cursors(old(self)),
            Self::regions_kept(final(r.0)@, r.0@.len(), final(r.1)@, r.1@.len()) ==> {
                &&& final(self).wf()
                &&& final(self).spec_capacity() == old(self).spec_capacity()
                &&& final(self)@ == (final(r.0)@ + final(r.1)@).map_values(|v: Option<T>| v->0)
                &&& final(self).spare_view() == old(self).spare_view()
            },
    {
        let rd = self.read;
        let w = self.write;
        let ghost c = self.data@.len() as int;
        let ghost d = self.data@;
        let ghost spare = self.spare_view();
        if rd <= w {
            proof {
                let front = d.subrange(0, rd as int);
                let back = d.subrange(w as int, c);
                assert(d.subrange(0, w as int).subrange(0, rd as int) =~= front);
                assert(back.subrange(0, back.len() as int) =~= back);
                assert forall|a2: Seq<Option<T>>, e2: Seq<Option<T>>|
                    Self::regions_kept(a2, (w - rd) as nat, e2, 0) implies {
                    let n = #[trigger] ((front + a2) + (e2 + back));
                    &&& queued_filled(n, rd as int, w as int)
                    &&& queued(n, rd as int, w as int) == (a2 + e2).map_values(|v: Option<T>| v->0)
                    &&& Seq::new(spare.len(), |i: int| n[wrap(w + i, c)]) == spare
                } by {
                    let n = (front + a2) + (e2 + back);
                    assert(n.len() == c);
                    assert forall|i: int| 0 <= i < queue_len(c as nat, rd as int, w as int) implies (
                    #[trigger] n[wrap(rd + i, c)]) is Some by {
                        assert((a2 + e2)[i] is Some);
                    }
                    assert(queued(n, rd as int, w as int) =~= (a2 + e2).map_values(
                        |v: Option<T>| v->0,
                    ));
                    assert(Seq::new(spare.len(), |i: int| n[wrap(w + i, c)]) =~= spare);
                }
            }
            let all = self.data.as_mut_slice();
            let (lo, hi) = all.split_at_mut(w);
            let (_front, a) = lo.split_at_mut(rd);
            let (e, _back) = hi.split_at_mut(0);
            (a, e)
        } else {
            proof {
                let middle = d.subrange(w as int, rd as int);
                let lv = d.subrange(0, rd as int);
                assert(lv.subrange(w as int, lv.len() as int) =~= middle);
                assert forall|h2: Seq<Option<T>>, b2: Seq<Option<T>>|
                    Self::regions_kept(h2, (c - rd) as nat, b2, w as nat) implies {
                    let n = #[trigger] ((b2 + middle) + h2);
                    &&& queued_filled(n, rd as int, w as int)
                    &&& queued(n, rd as int, w as int) == (h2 + b2).map_values(|v: Option<T>| v->0)
                    &&& Seq::new(spare.len(), |i: int| n[wrap(w + i, c)]) == spare
                } by {
                    let n = (b2 + middle) + h2;
                    assert(n.len() == c);
                    assert forall|i: int| 0 <= i < queue_len(c as nat, rd as int, w as int) implies (
                    #[trigger] n[wrap(rd + i, c)]) is Some by {
                        assert((h2 + b2)[i] is Some);
                    }
                    assert(queued(n, rd as int, w as int) =~= (h2 + b2).map_values(
                        |v: Option<T>| v->0,
                    ));
                    assert(Seq::new(spare.len(), |i: int| n[wrap(w + i, c)]) =~= spare);
                }
            }
            let all = self.data.as_mut_slice();
            let (lo, hi) = all.split_at_mut(rd);
            let (b, _middle) = lo.split_at_mut(w);
            (hi, b)
        }
    }

    /// The free slots as one or two contiguous regions, the first starting at
    /// the write cursor: filling the first region and then the second appends
    /// in order. What is written there is queued by `set_write_cursor`.
    ///
    /// The promises on the buffer afterwards hold as long as the two regions
    /// keep their lengths, as slices always do.
    pub fn spare_capacity_mut(&mut self) -> (r: (&mut [Option<T>], &mut [Option<T>]))
        requires
            old(self).wf(),
        ensures
            r.0@ + r.1@ == old(self).spare_view(),
            r.0@.len() + r.1@.len() == old(self).spare_len(),
            old(self).spare_len() < old(self).spec_capacity() || old(self).spec_capacity() == 0,
            r.1@.len() > 0 ==> old(self).write_cursor() + r.0@.len() == old(self).spec_capacity(),
            final(self).same_cursors(old(self)),
            final(r.0)@.len() == r.0@.len() && final(r.1)@.len() == r.1@.len() ==> {
                &&& final(self).wf()
                &&& final(self).spec_capacity() == old(self).spec_capacity()
                &&& final(self)@ == old(self)@
                &&& final(self).spare_view() == final(r.0)@ + final(r.1)@
                &&& final(self).spare_len() == old(self).spare_len()
            },
    {
        let c = self.data.len();
        let rd = self.read;
        let w = self.write;
        let all = self.data.as_mut_slice();
        let (lo, hi) = all.split_at_mut(w);
        if c == 0 {
            (hi, lo)
        } else if rd > w {
            let (a, _rest) = hi.split_at_mut(rd - 1 - w);
            let (e, _front) = lo.split_at_mut(0);
            (a, e)
        } else if rd == 0 {
            let (a, _rest) = hi.split_at_mut(c - 1 - w);
            let (e, _front) = lo.split_at_mut(0);
            (a, e)
        } else {
            let (b, _rest) = lo.split_at_mut(rd - 1);
            (hi, b)
        }
    }

    /// An iterator over the queued elements, from the read end.
    pub fn iter(&self) -> (r: Iter<'_, T>)
        requires
            self.wf(),
        ensures
            r.wf(),
            r.remaining() == self@,
    {
        Iter { ring: self, index: 0 }
    }

    /// An iterator over mutable references to the queued elements, from the
    /// read end. What the buffer holds afterwards depends on every reference
    /// handed out, and is not stated here: `get_mut` states it for one.
    pub fn iter_mut(&mut self) -> (r: IterMut<'_, T>)
        requires
            old(self).wf(),
        ensures
            r.wf(),
            r.remaining() == old(self)@,
    {
        let (first, second) = self.as_mut_slices();
        let r = IterMut { first, second };
        assert(r.remaining() =~= old(self)@);
        r
    }

    /// An iterator that removes the queued elements in order, as `pop` does.
    pub fn into_iter(self) -> (r: IntoIter<T>)
        requires
            self.wf(),
        ensures
            r.wf(),
            r.remaining() == self@,
    {
        IntoIter(self)
    }

    /// The mask that reduces a cursor modulo the capacity.
    fn mask(&self) -> (m: usize)
        requires
            self.wf(),
        ensures
            m == if self.spec_capacity() == 0 {
                0
            } else {
                self.spec_capacity() - 1
            },
    {
        if self.data.len() == 0 {
            0
        } else {
            self.data.len() - 1
        }
    }

    /// Returns if there are no items in the buffer.
    pub fn empty(&self) -> (r: bool)
        requires
            self.wf(),
        ensures
            r == (self@.len() == 0),
    {
        self.read == self.write
    }

    /// Returns if the buffer has no free slot left: its length is one less than
    /// its capacity, or it has no allocation.
    pub fn full(&self) -> (r: bool)
        requires
            self.wf(),
        ensures
            r == (self@.len() + 1 >= self.spec_capacity()),
    {
        let m = self.mask();
        if self.data.len() == 0 {
            let w = self.write;
            assert(((w + 1) as usize) & 0usize == 0usize) by (bit_vector);
        } else {
            proof {
                lemma_mask_wraps((self.write + 1) as usize, self.data@.len() as usize);
            }
        }
        (self.write + 1) & m == self.read
    }

    /// Returns the number of items in the buffer.
    pub fn len(&self) -> (r: usize)
        requires
            self.wf(),
        ensures
            r == self@.len(),
    {
        if self.read <= self.write {
            self.write - self.read
        } else {
            self.data.len() - (self.read - self.write)
        }
    }

    /// Returns the number of slots in the allocation.
    pub fn capacity(&self) -> (r: usize)
        requires
            self.wf(),
        ensures
            r == self.spec_capacity(),
    {
        self.data.len()
    }
}

/// A borrowing iterator over the elements of a `RingBuffer`, from the read
/// end.
pub struct Iter<'a, T> {
    ring: &'a RingBuffer<T>,
    index: usize,
}

impl<'a, T> Iter<'a, T> {
    /// The iterator's invariant.
    pub closed spec fn wf(&self) -> bool {
        self.ring.wf() && self.index <= self.ring@.len()
    }

    /// The elements not yet returned.
    pub closed spec fn remaining(&self) -> Seq<T> {
        self.ring@.subrange(self.index as int, self.ring@.len() as int)
    }

    /// Returns the next element, or `None` once all have been returned.
    pub fn next(&mut self) -> (r: Option<&'a T>)
        requires
            old(self).wf(),
        ensures
            final(self).wf(),
            old(self).remaining().len() == 0 ==> r is None && final(self).remaining() == old(self).remaining(),
            old(self).remaining().len() > 0 ==> r == Some(&old(self).remaining()[0]) && final(self).remaining() == old(self).remaining().drop_first(),
    {
        let r = self.ring.get(self.index);
        if r.is_some() {
            self.index = self.index + 1;
        }
        assert(self.remaining() =~= if old(self).remaining().len() == 0 {
            old(self).remaining()
        } else {
            old(self).remaining().drop_first()
        });
        r
    }
}

/// An iterator that takes the elements out of a `RingBuffer`, from the read
/// end.
pub struct IntoIter<T>(RingBuffer<T>);

impl<T> IntoIter<T> {
    /// The iterator's invariant.
    pub closed spec fn wf(&self) -> bool {
        self.0.wf()
    }

    /// The elements not yet returned.
    pub closed spec fn remaining(&self) -> Seq<T> {
        self.0@
    }

    /// Removes and returns the next element, or `None` once all have been
    /// returned.
    pub fn next(&mut self) -> (r: Option<T>)
        requires
            old(self).wf(),
        ensures
            final(self).wf(),
            old(self).remaining().len() == 0 ==> r is None && final(self).remaining() == old(self).remaining(),
            old(self).remaining().len() > 0 ==> r == Some(old(self).remaining()[0]) && final(self).remaining() == old(self).remaining().drop_first(),
    {
        self.0.pop()
    }

    /// The number of elements left, consuming the iterator.
    pub fn count(self) -> (r: usize)
        requires
            self.wf(),
        ensures
            r == self.remaining().len(),
    {
        self.0.len()
    }
}

/// An iterator over mutable references to the elements of a `RingBuffer`,
/// from the read end.
pub struct IterMut<'a, T> {
    first: &'a mut [Option<T>],
    second: &'a mut [Option<T>],
}

impl<'a, T> IterMut<'a, T> {
    /// The iterator's invariant: every slot left holds an element.
    pub closed spec fn wf(&self) -> bool {
        forall|i: int|
            0 <= i < self.first@.len() + self.second@.len() ==> (#[trigger] (self.first@
                + self.second@)[i]) is Some
    }

    /// The elements not yet returned.
    pub closed spec fn remaining(&self) -> Seq<T> {
        (self.first@ + self.second@).map_values(|v: Option<T>| v->0)
    }

    /// Returns the next element, or `None` once all have been returned.
    pub fn next(&mut self) -> (r: Option<&'a mut T>)
        requires
            old(self).wf(),
        ensures
            final(self).wf(),
            old(self).remaining().len() == 0 ==> r is None && final(self).remaining() == old(self).remaining(),
            old(self).remaining().len() > 0 ==> r is Some && *r.unwrap() == old(self).remaining()[0]
                && final(self).remaining() == old(self).remaining().drop_first(),
    {
        if self.first.len() == 0 {
            core::mem::swap(&mut self.first, &mut self.second);
            assert(self.first@ + self.second@ =~= old(self).first@ + old(self).second@);
        }
        if self.first.len() == 0 {
            return None;
        }
        let ghost whole = self.first@ + self.second@;
        assert(whole =~= old(self).first@ + old(self).second@);
        assert forall|i: int| 0 <= i < whole.len() implies #[trigger] whole[i] is Some by {
            assert((old(self).first@ + old(self).second@)[i] is Some);
        }
        let mut taken: &'a mut [Option<T>] = &mut [];
        core::mem::swap(&mut self.first, &mut taken);
        let (head, tail) = taken.split_at_mut(1);
        self.first = tail;
        assert(whole =~= head@ + (self.first@ + self.second@));
        assert(self.remaining() =~= old(self).remaining().drop_first());
        assert(whole[0] is Some);
        assert forall|i: int| 0 <= i < self.first@.len() + self.second@.len() implies #[trigger] (
        self.first@ + self.second@)[i] is Some by {
            assert(whole[i + 1] is Some);
        }
        let r = match head.first_mut() {
            Some(slot) => slot.as_mut(),
            None => None,
        };
        r
    }
}

} // verus!
