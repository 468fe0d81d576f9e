use crate::ring_buffer::RingBuffer;
use vstd::prelude::*;

verus! {

/// What byte sources and sinks have in common: a state in which they can be
/// used.
pub trait Stream {
    /// The stream can be read from and written to; always, unless a stream
    /// says otherwise.
    open spec fn usable(&self) -> bool {
        true
    }
}

/// A source of bytes.
///
/// A byte region is a slice of `Option<u8>`: `None` marks a byte that holds
/// nothing yet, and a read fills the start of the region.
pub trait Read: Stream {
    type Error;

    /// Places the next bytes from the source at the start of `buffer`, and
    /// returns how many it placed.
    fn read(&mut self, buffer: &mut [Option<u8>]) -> (r: Result<usize, Self::Error>)
        requires
            old(self).usable(),
        ensures
            final(self).usable(),
            final(buffer)@.len() == old(buffer)@.len(),
            r matches Ok(n) ==> n <= old(buffer)@.len() && forall|i: int|
                0 <= i < n ==> (#[trigger] final(buffer)@[i]) is Some,
    ;

    /// Reads into `first` and then, if `first` was filled, into `second`,
    /// and returns how many bytes were placed in the two together.
    ///
    /// Two regions, because the free space of a ring is at most two: the
    /// slots from the write cursor to the end of the allocation, and those
    /// from its start up to the read cursor.
    fn read_vectored(&mut self, first: &mut [Option<u8>], second: &mut [Option<u8>]) -> (r:
        Result<usize, Self::Error>)
        requires
            old(self).usable(),
            old(first)@.len() + old(second)@.len() <= usize::MAX,
        ensures
            final(self).usable(),
            final(first)@.len() == old(first)@.len(),
            final(second)@.len() == old(second)@.len(),
            r matches Ok(n) ==> n <= old(first)@.len() + old(second)@.len() && forall|i: int|
                0 <= i < n ==> (#[trigger] (final(first)@ + final(second)@)[i]) is Some,
    {
        let n = self.read(first)?;
        if n < first.len() {
            return Ok(n);
        }
        let m = self.read(second)?;
        Ok(n + m)
    }
}

/// A sink for bytes.
pub trait Write: Stream {
    type Error;

    /// Writes bytes from the start of `slice`, and returns how many it wrote.
    fn write(&mut self, slice: &[u8]) -> (r: Result<usize, Self::Error>)
        requires
            old(self).usable(),
        ensures
            final(self).usable(),
            r matches Ok(n) ==> n <= slice@.len(),
    ;

    /// Makes the bytes written so far visible to other readers of the
    /// resource.
    fn flush(&mut self) -> (r: Result<(), Self::Error>)
        requires
            old(self).usable(),
        ensures
            final(self).usable(),
    ;
}

/// A stream that buffers what it reads from `stream` in a ring of bytes.
pub struct BufStream<S: Read + Write> {
    stream: S,
    input: RingBuffer<u8>,
    output: RingBuffer<u8>,
}

impl<S: Read + Write> BufStream<S> {
    /// The invariant of both rings, and a stream that can be read and written.
    pub closed spec fn wf(&self) -> bool {
        self.input.wf() && self.output.wf() && self.stream.usable()
    }

    /// The bytes written to the stream's buffer and not yet sent.
    pub closed spec fn pending(&self) -> Seq<u8> {
        self.output@
    }

    /// The bytes read from the stream and not yet handed out.
    pub closed spec fn buffered(&self) -> Seq<u8> {
        self.input@
    }

    /// The number of slots of the input ring.
    pub closed spec fn input_capacity(&self) -> nat {
        self.input.spec_capacity()
    }

    /// The number of slots of the output ring.
    pub closed spec fn output_capacity(&self) -> nat {
        self.output.spec_capacity()
    }

    /// Wraps `stream` with rings that allocate when first needed.
    pub fn new(stream: S) -> (r: Self)
        requires
            stream.usable(),
        ensures
            r.wf(),
            r.pending() == Seq::<u8>::empty(),
            r.buffered() == Seq::<u8>::empty(),
            r.input_capacity() == 0,
            r.output_capacity() == 0,
    {
        BufStream { stream, input: RingBuffer::new(), output: RingBuffer::new() }
    }

    /// Wraps `stream` with input and output rings that each have room for at
    /// least `capacity` bytes.
    pub fn with_capacity(stream: S, capacity: usize) -> (r: Self)
        requires
            stream.usable(),
            capacity + 1 <= RingBuffer::<u8>::slot_limit(),
        ensures
            r.wf(),
            r.pending() == Seq::<u8>::empty(),
            r.buffered() == Seq::<u8>::empty(),
            r.input_capacity() == RingBuffer::<u8>::reserved_capacity(0, capacity as nat),
            r.output_capacity() == RingBuffer::<u8>::reserved_capacity(0, capacity as nat),
    {
        BufStream {
            stream,
            input: RingBuffer::with_capacity(capacity),
            output: RingBuffer::with_capacity(capacity),
        }
    }

    /// Grows the input ring by at least one slot when it is full and can
    /// still grow.
    fn make_room(&mut self)
        requires
            old(self).wf(),
        ensures
            final(self).wf(),
            final(self).buffered() == old(self).buffered(),
            final(self).output == old(self).output,
            final(self).stream == old(self).stream,
            final(self).input_capacity() >= old(self).input_capacity(),
            old(self).buffered().len() + 1 < old(self).input_capacity() ==> final(self).input_capacity() == old(self).input_capacity(),
            old(self).buffered().len() + 1 >= old(self).input_capacity() && old(self).input_capacity() + 2
                <= RingBuffer::<u8>::slot_limit() ==> final(self).input_capacity() > old(self).input_capacity()
                && final(self).buffered().len() + 1 < final(self).input_capacity(),
    {
        assert(vstd::layout::size_of::<u8>() == 1) by {
            broadcast use vstd::layout::layout_of_primitives;
        }
        proof {
            self.input.lemma_sizes();
        }
        if self.input.full() && self.input.capacity() + 2 <= RingBuffer::<u8>::max_slots() {
            self.input.reserve(1);
        }
    }

    /// Reads once from the stream into the free part of the input ring,
    /// first growing the ring if it is full, and queues what was read.
    ///
    /// The count the stream reports is checked against the free space it was
    /// handed, and against the bytes it actually placed: a count that does not
    /// fit queues nothing. On success the buffered bytes are the earlier ones
    /// followed by those the stream placed; on failure they are unchanged and
    /// the stream's error is returned. The output ring is not touched.
    pub fn buffer_read(&mut self) -> (r: Result<(), <S as Read>::Error>)
        requires
            old(self).wf(),
        ensures
            final(self).wf(),
            final(self).pending() == old(self).pending(),
            final(self).output_capacity() == old(self).output_capacity(),
            final(self).input_capacity() >= old(self).input_capacity(),
            old(self).buffered().len() + 1 >= old(self).input_capacity() && old(self).input_capacity() + 2
                <= RingBuffer::<u8>::slot_limit() ==> final(self).input_capacity() > old(self).input_capacity(),
            final(self).buffered().len() >= old(self).buffered().len(),
            final(self).buffered().subrange(0, old(self).buffered().len() as int) == old(self).buffered(),
            r is Err ==> final(self).buffered() == old(self).buffered(),
    {
        self.make_room();
        let ghost before = self.input@;
        proof {
            self.input.lemma_sizes();
        }
        let (lhs, rhs) = self.input.spare_capacity_mut();
        let count = self.stream.read_vectored(lhs, rhs);
        match count {
            Ok(n) => {
                self.input.commit(n);
                assert(self.input@.subrange(0, before.len() as int) =~= before);
                self.make_room();
                Ok(())
            },
            Err(e) => Err(e),
        }
    }

    /// Moves as many buffered bytes as fit to the start of `buffer`, and
    /// returns how many it moved.
    pub fn read_into(&mut self, buffer: &mut [Option<u8>]) -> (n: usize)
        requires
            old(self).wf(),
        ensures
            final(self).wf(),
            n == if old(buffer)@.len() < old(self).buffered().len() {
                old(buffer)@.len()
            } else {
                old(self).buffered().len()
            },
            final(buffer)@.len() == old(buffer)@.len(),
            forall|i: int| 0 <= i < n ==> #[trigger] final(buffer)@[i] == Some(old(self).buffered()[i]),
            forall|i: int| n <= i < old(buffer)@.len() ==> #[trigger] final(buffer)@[i] == old(buffer)@[i],
            final(self).buffered() == old(self).buffered().subrange(n as int, old(self).buffered().len() as int),
            final(self).input_capacity() == old(self).input_capacity(),
            final(self).pending() == old(self).pending(),
    {
        let available = self.input.len();
        let n = if buffer.len() < available {
            buffer.len()
        } else {
            available
        };
        let ghost queued = self.input@;
        let mut i: usize = 0;
        while i < n
            invariant
                self.wf(),
                self.output == old(self).output,
                self.input.spec_capacity() == old(self).input.spec_capacity(),
                queued == old(self).input@,
                n <= queued.len(),
                n <= buffer@.len(),
                i <= n,
                buffer@.len() == old(buffer)@.len(),
                self.input@ == queued.subrange(i as int, queued.len() as int),
                forall|j: int| 0 <= j < i ==> #[trigger] buffer@[j] == Some(queued[j]),
                forall|j: int| i <= j < buffer@.len() ==> #[trigger] buffer@[j] == old(buffer)@[j],
            decreases n - i,
        {
            let b = self.input.pop();
            buffer[i] = b;
            i = i + 1;
            assert(self.input@ =~= queued.subrange(i as int, queued.len() as int));
        }
        n
    }

    /// Queues bytes from the start of `slice` in the output ring, as many as
    /// the ring can take (all of them, unless growing it would pass its slot
    /// limit), and returns how many it queued.
    pub fn buffer_write(&mut self, slice: &[u8]) -> (n: usize)
        requires
            old(self).wf(),
        ensures
            final(self).wf(),
            final(self).buffered() == old(self).buffered(),
            n <= slice@.len(),
            final(self).pending() == old(self).pending() + slice@.subrange(0, n as int),
            n < slice@.len() ==> final(self).pending().len() + 3 > RingBuffer::<u8>::slot_limit(),
            final(self).input_capacity() == old(self).input_capacity(),
    {
        let mut i: usize = 0;
        while i < slice.len()
            invariant
                self.wf(),
                self.input == old(self).input,
                i <= slice@.len(),
                self.pending() == old(self).pending() + slice@.subrange(0, i as int),
            decreases slice@.len() - i,
        {
            proof {
                self.output.lemma_sizes();
            }
            if self.output.len() + 3 > RingBuffer::<u8>::max_slots() {
                return i;
            }
            self.output.push(slice[i]);
            assert(vstd::layout::size_of::<u8>() == 1) by {
                broadcast use vstd::layout::layout_of_primitives;
            }
            i = i + 1;
            assert(self.pending() =~= old(self).pending() + slice@.subrange(0, i as int));
        }
        i
    }

    /// The pending bytes, in order, as one contiguous vector.
    pub fn pending_bytes(&self) -> (r: Vec<u8>)
        requires
            self.wf(),
        ensures
            r@ == self.pending(),
    {
        let len = self.output.len();
        let mut chunk: Vec<u8> = Vec::with_capacity(len);
        let mut i: usize = 0;
        while i < len
            invariant
                self.wf(),
                len == self.pending().len(),
                i <= len,
                chunk@ == self.pending().subrange(0, i as int),
            decreases len - i,
        {
            if let Some(b) = self.output.get(i) {
                chunk.push(*b);
            }
            i = i + 1;
            assert(chunk@ =~= self.pending().subrange(0, i as int));
        }
        assert(chunk@ =~= self.pending());
        chunk
    }

    /// Takes the sink's count `n` for the `handed` pending bytes it was given:
    /// a count from 1 to `handed` drops that many bytes from the front of the
    /// pending ones and returns `true`, to send again; any other count
    /// changes nothing and returns `false`.
    pub fn consume_sent(&mut self, n: usize, handed: usize) -> (more: bool)
        requires
            old(self).wf(),
            handed == old(self).pending().len(),
        ensures
            final(self).wf(),
            final(self).buffered() == old(self).buffered(),
            final(self).input_capacity() == old(self).input_capacity(),
            final(self).output_capacity() == old(self).output_capacity(),
            more == (0 < n <= handed),
            more ==> final(self).pending() == old(self).pending().subrange(n as int, handed as int),
            !more ==> final(self).pending() == old(self).pending(),
    {
        if n == 0 || n > handed {
            return false;
        }
        self.output.set_read_cursor(n);
        true
    }

    /// Sends the pending bytes to the stream, in order, until none are left
    /// or the stream takes none; what the stream did not take stays pending.
    /// A count larger than what was handed to the stream sends nothing more.
    pub fn send_pending(&mut self) -> (r: Result<(), <S as Write>::Error>)
        requires
            old(self).wf(),
        ensures
            final(self).wf(),
            final(self).buffered() == old(self).buffered(),
            final(self).input_capacity() == old(self).input_capacity(),
            final(self).output_capacity() == old(self).output_capacity(),
            old(self).pending().len() == 0 ==> r is Ok && final(self).pending() == old(self).pending(),
            final(self).pending().len() <= old(self).pending().len(),
            final(self).pending() == old(self).pending().subrange(
                old(self).pending().len() - final(self).pending().len(),
                old(self).pending().len() as int,
            ),
    {
        loop
            invariant
                self.wf(),
                self.buffered() == old(self).buffered(),
                self.input_capacity() == old(self).input_capacity(),
                self.output.spec_capacity() == old(self).output.spec_capacity(),
                self.pending().len() <= old(self).pending().len(),
                self.pending() == old(self).pending().subrange(
                    old(self).pending().len() - self.pending().len(),
                    old(self).pending().len() as int,
                ),
            decreases self.pending().len(),
        {
            if self.output.empty() {
                return Ok(());
            }
            let chunk = self.pending_bytes();
            match self.stream.write(chunk.as_slice()) {
                Ok(n) => {
                    if !self.consume_sent(n, chunk.len()) {
                        return Ok(());
                    }
                    assert(self.pending() =~= old(self).pending().subrange(
                        old(self).pending().len() - self.pending().len(),
                        old(self).pending().len() as int,
                    ));
                },
                Err(e) => {
                    return Err(e);
                },
            }
        }
    }
}

impl<S: Read + Write> Stream for BufStream<S> {
    open spec fn usable(&self) -> bool {
        self.wf()
    }
}

impl<S: Read + Write> Write for BufStream<S> {
    type Error = <S as Write>::Error;

    /// Queues bytes from `slice` in the output ring, and returns how many.
    fn write(&mut self, slice: &[u8]) -> (r: Result<usize, Self::Error>)
        ensures
            r is Ok,
            r matches Ok(n) ==> final(self).pending() == old(self).pending() + slice@.subrange(
                0,
                n as int,
            ) && (n < slice@.len() ==> final(self).pending().len() + 3
                > RingBuffer::<u8>::slot_limit()),
            final(self).buffered() == old(self).buffered(),
    {
        Ok(self.buffer_write(slice))
    }

    /// Sends the pending bytes to the stream, then flushes the stream.
    fn flush(&mut self) -> (r: Result<(), Self::Error>)
        ensures
            final(self).buffered() == old(self).buffered(),
            final(self).pending().len() <= old(self).pending().len(),
            final(self).pending() == old(self).pending().subrange(
                old(self).pending().len() - final(self).pending().len(),
                old(self).pending().len() as int,
            ),
    {
        self.send_pending()?;
        self.stream.flush()
    }
}

impl<S: Read + Write> Read for BufStream<S> {
    type Error = <S as Read>::Error;

    /// Reads once from the stream into the input ring, then moves as many
    /// buffered bytes as fit into `buffer`.
    fn read(&mut self, buffer: &mut [Option<u8>]) -> (r: Result<usize, Self::Error>)
        ensures
            final(self).pending() == old(self).pending(),
            final(self).input_capacity() >= old(self).input_capacity(),
            old(self).buffered().len() + 1 >= old(self).input_capacity() && old(self).input_capacity() + 2
                <= RingBuffer::<u8>::slot_limit() ==> final(self).input_capacity() > old(self).input_capacity(),
            r is Err ==> final(buffer)@ == old(buffer)@ && final(self).buffered() == old(self).buffered(),
            r matches Ok(n) ==> {
                &&& n == old(buffer)@.len() || final(self).buffered().len() == 0
                &&& forall|i: int| n <= i < old(buffer)@.len() ==> #[trigger] final(buffer)@[i] == old(buffer)@[i]
                &&& (final(buffer)@.subrange(0, n as int).map_values(|v: Option<u8>| v->0) + final(self).buffered()).subrange(0, old(self).buffered().len() as int) == old(self).buffered()
            },
    {
        match self.buffer_read() {
            Ok(()) => {},
            Err(e) => {
                return Err(e);
            },
        }
        let ghost filled = self.buffered();
        let n = self.read_into(buffer);
        assert(final(buffer)@.subrange(0, n as int).map_values(|v: Option<u8>| v->0) =~= filled.subrange(0, n as int));
        assert(filled.subrange(0, n as int) + self.buffered() =~= filled);
        Ok(n)
    }

    /// Reads once from the stream into the input ring, then moves buffered
    /// bytes into `first` and what is left into `second`.
    fn read_vectored(&mut self, first: &mut [Option<u8>], second: &mut [Option<u8>]) -> (r:
        Result<usize, Self::Error>)
        ensures
            final(self).pending() == old(self).pending(),
            final(self).input_capacity() >= old(self).input_capacity(),
            old(self).buffered().len() + 1 >= old(self).input_capacity() && old(self).input_capacity() + 2
                <= RingBuffer::<u8>::slot_limit() ==> final(self).input_capacity() > old(self).input_capacity(),
            r is Err ==> final(first)@ == old(first)@ && final(second)@ == old(second)@
                && final(self).buffered() == old(self).buffered(),
            r matches Ok(n) ==> {
                let total = old(first)@.len() + old(second)@.len();
                let all = final(first)@ + final(second)@;
                &&& n == total || final(self).buffered().len() == 0
                &&& forall|i: int| n <= i < total ==> #[trigger] all[i] == (old(first)@ + old(second)@)[i]
                &&& (all.subrange(0, n as int).map_values(|v: Option<u8>| v->0) + final(self).buffered()).subrange(0, old(self).buffered().len() as int) == old(self).buffered()
            },
    {
        match self.buffer_read() {
            Ok(()) => {},
            Err(e) => {
                return Err(e);
            },
        }
        let ghost filled = self.buffered();
        let n = self.read_into(first);
        let m = self.read_into(second);
        proof {
            let all = final(first)@ + final(second)@;
            assert(all.subrange(0, (n + m) as int).map_values(|v: Option<u8>| v->0) =~= filled.subrange(0, (n + m) as int));
            assert(filled.subrange(0, (n + m) as int) + self.buffered() =~= filled);
        }
        Ok(n + m)
    }
}

/// A buffered reader; it holds no state of its own.
pub struct BufReader {}

/// A buffered writer; it holds no state of its own.
pub struct BufWriter {}

/// A borrowed byte region to write out from.
pub struct IoVec<'a> {
    slice: &'a [u8],
}

impl<'a> IoVec<'a> {
    /// The bytes of the region.
    pub closed spec fn bytes(&self) -> Seq<u8> {
        self.slice@
    }

    /// A region over `slice`.
    pub fn new(slice: &'a [u8]) -> (r: Self)
        ensures
            r.bytes() == slice@,
    {
        IoVec { slice }
    }

    /// The number of bytes of the region.
    pub fn len(&self) -> (r: usize)
        ensures
            r == self.bytes().len(),
    {
        self.slice.len()
    }

    /// The bytes of the region as a slice.
    pub fn as_slice(&self) -> (r: &'a [u8])
        ensures
            r@ == self.bytes(),
    {
        self.slice
    }
}

/// A borrowed byte region to read into, whose bytes may hold nothing yet.
pub struct IoVecMut<'a> {
    slice: &'a mut [Option<u8>],
}

impl<'a> IoVecMut<'a> {
    /// The bytes of the region now.
    pub closed spec fn bytes(&self) -> Seq<Option<u8>> {
        self.slice@
    }

    /// A region over `slice`.
    pub fn maybe_uninit(slice: &'a mut [Option<u8>]) -> (r: Self)
        ensures
            r.bytes() == old(slice)@,
    {
        IoVecMut { slice }
    }

    /// The number of bytes of the region.
    pub fn len(&self) -> (r: usize)
        ensures
            r == self.bytes().len(),
    {
        self.slice.len()
    }

    /// The region as a slice, for the rest of its borrow.
    pub fn as_maybe_uninit_slice(self) -> (r: &'a mut [Option<u8>])
        ensures
            r@ == self.bytes(),
    {
        self.slice
    }
}

} // verus!
