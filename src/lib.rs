//! A growable circular buffer over one power-of-two sized allocation, and a
//! buffered byte stream built on its cursors.

mod fifo;
mod io;
mod ring_buffer;

pub use io::{BufReader, BufStream, BufWriter, IoVec, IoVecMut, Read, Stream, Write};
pub use ring_buffer::{IntoIter, Iter, IterMut, RingBuffer, MAX_CAPACITY};
pub use fifo::{
    lemma_first_in_first_out, lemma_len_counts, lemma_push_then_pop_all, lemma_spare_commit,
    pop_count, popped, pops_find_elements, pushed, run, step,
};
