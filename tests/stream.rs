use circulate::{BufStream, Read, Stream, Write};
use std::cell::RefCell;
use std::rc::Rc;

/// A transport that hands out one queued chunk per read.
struct Chunks {
    chunks: Vec<Vec<u8>>,
    fail: bool,
    sent: Rc<RefCell<Vec<u8>>>,
    accept: usize,
    flushes: Rc<RefCell<usize>>,
}

impl Chunks {
    fn new(chunks: &[&[u8]]) -> Self {
        Chunks {
            chunks: chunks.iter().map(|c| c.to_vec()).collect(),
            fail: false,
            sent: Rc::new(RefCell::new(Vec::new())),
            accept: usize::MAX,
            flushes: Rc::new(RefCell::new(0)),
        }
    }
}

impl Stream for Chunks {}

impl Read for Chunks {
    type Error = String;

    fn read(&mut self, buffer: &mut [Option<u8>]) -> Result<usize, String> {
        if self.fail {
            return Err("broken".to_owned());
        }
        if self.chunks.is_empty() {
            return Ok(0);
        }
        let chunk = &mut self.chunks[0];
        let n = chunk.len().min(buffer.len());
        for (slot, b) in buffer.iter_mut().zip(chunk.drain(..n)) {
            *slot = Some(b);
        }
        if chunk.is_empty() {
            self.chunks.remove(0);
        }
        Ok(n)
    }
}

impl Write for Chunks {
    type Error = String;

    fn write(&mut self, slice: &[u8]) -> Result<usize, String> {
        if self.fail {
            return Err("broken".to_owned());
        }
        let n = slice.len().min(self.accept);
        self.sent.borrow_mut().extend_from_slice(&slice[..n]);
        Ok(n)
    }

    fn flush(&mut self) -> Result<(), String> {
        *self.flushes.borrow_mut() += 1;
        Ok(())
    }
}

fn bytes(buffer: &[Option<u8>], n: usize) -> Vec<u8> {
    buffer[..n].iter().map(|b| b.unwrap()).collect()
}

#[test]
fn read_hello_world() {
    let mut stream = BufStream::with_capacity(Chunks::new(&[b"hello", b" world"]), 8);
    let mut small = [None; 3];
    let n = stream.read(&mut small).unwrap();
    assert_eq!(n, 3);
    assert_eq!(bytes(&small, n), b"hel".to_vec());
    let mut large = [None; 8];
    let n = stream.read(&mut large).unwrap();
    assert_eq!(n, 8);
    assert_eq!(bytes(&large, n), b"lo world".to_vec());
}

#[test]
fn read_leaves_rest_of_buffer_untouched() {
    let mut stream = BufStream::with_capacity(Chunks::new(&[b"hi"]), 8);
    let mut buffer = [Some(b'x'); 5];
    let n = stream.read(&mut buffer).unwrap();
    assert_eq!(n, 2);
    assert_eq!(buffer, [Some(b'h'), Some(b'i'), Some(b'x'), Some(b'x'), Some(b'x')]);
}

#[test]
fn read_from_unallocated_stream_grows() {
    let mut stream = BufStream::new(Chunks::new(&[b"abc"]));
    let mut out = Vec::new();
    for _ in 0..6 {
        let mut buffer = [None; 4];
        let n = stream.read(&mut buffer).unwrap();
        out.extend(bytes(&buffer, n));
    }
    assert_eq!(out, b"abc".to_vec());
}

#[test]
fn read_vectored_carries_over_to_second_region() {
    let mut stream = BufStream::with_capacity(Chunks::new(&[b"abcdef"]), 16);
    let mut first = [None; 4];
    let mut second = [None; 4];
    let n = stream.read_vectored(&mut first, &mut second).unwrap();
    assert_eq!(n, 6);
    assert_eq!(bytes(&first, 4), b"abcd".to_vec());
    assert_eq!(bytes(&second, 2), b"ef".to_vec());
}

#[test]
fn read_error_is_passed_through() {
    let mut source = Chunks::new(&[b"abc"]);
    source.fail = true;
    let mut stream = BufStream::with_capacity(source, 4);
    let mut buffer = [None; 4];
    assert_eq!(stream.read(&mut buffer), Err("broken".to_owned()));
    assert_eq!(buffer, [None; 4]);
}

#[test]
fn buffer_read_then_read_into() {
    let mut stream = BufStream::with_capacity(Chunks::new(&[b"xyz"]), 4);
    stream.buffer_read().unwrap();
    let mut buffer = [None; 2];
    assert_eq!(stream.read_into(&mut buffer), 2);
    assert_eq!(bytes(&buffer, 2), b"xy".to_vec());
    assert_eq!(stream.read_into(&mut buffer), 1);
    assert_eq!(buffer, [Some(b'z'), Some(b'y')]);
    assert_eq!(stream.read_into(&mut buffer), 0);
}

#[test]
fn default_read_vectored_stops_on_short_read() {
    let mut source = Chunks::new(&[b"ab", b"cd"]);
    let mut first = [None; 3];
    let mut second = [None; 3];
    let n = source.read_vectored(&mut first, &mut second).unwrap();
    assert_eq!(n, 2);
    assert_eq!(second, [None; 3]);
}

#[test]
fn write_is_buffered_until_flush() {
    let mut sink = Chunks::new(&[]);
    sink.accept = 3;
    let sent = sink.sent.clone();
    let flushes = sink.flushes.clone();
    let mut stream = BufStream::with_capacity(sink, 4);
    assert_eq!(stream.write(b"hello").unwrap(), 5);
    assert_eq!(stream.write(b" world").unwrap(), 6);
    assert!(sent.borrow().is_empty());
    stream.flush().unwrap();
    assert_eq!(*sent.borrow(), b"hello world".to_vec());
    assert_eq!(*flushes.borrow(), 1);
    stream.flush().unwrap();
    assert_eq!(*sent.borrow(), b"hello world".to_vec());
}

#[test]
fn send_pending_keeps_what_the_sink_refused() {
    let mut sink = Chunks::new(&[]);
    sink.accept = 0;
    let sent = sink.sent.clone();
    let mut stream = BufStream::new(sink);
    assert_eq!(stream.buffer_write(b"abcde"), 5);
    assert!(stream.send_pending().is_ok());
    assert!(sent.borrow().is_empty());
}

#[test]
fn send_pending_error_is_passed_through() {
    let mut sink = Chunks::new(&[]);
    sink.fail = true;
    let mut stream = BufStream::with_capacity(sink, 2);
    assert_eq!(stream.write(b"xy").unwrap(), 2);
    assert_eq!(stream.flush(), Err("broken".to_owned()));
}

/// A transport that claims more bytes than it was given room for.
struct Liar;

impl Stream for Liar {}

impl Read for Liar {
    type Error = ();

    fn read(&mut self, buffer: &mut [Option<u8>]) -> Result<usize, ()> {
        for slot in buffer.iter_mut() {
            *slot = Some(b'!');
        }
        Ok(buffer.len() + 100)
    }

    fn read_vectored(&mut self, first: &mut [Option<u8>], second: &mut [Option<u8>]) -> Result<usize, ()> {
        self.read(first)?;
        self.read(second)?;
        Ok(first.len() + second.len() + 100)
    }
}

impl Write for Liar {
    type Error = ();

    fn write(&mut self, slice: &[u8]) -> Result<usize, ()> {
        Ok(slice.len() + 100)
    }

    fn flush(&mut self) -> Result<(), ()> {
        Ok(())
    }
}

#[test]
fn oversized_read_count_is_not_committed() {
    let mut stream = BufStream::with_capacity(Liar, 4);
    stream.buffer_read().unwrap();
    let mut buffer = [None; 8];
    assert_eq!(stream.read_into(&mut buffer), 0);
    assert_eq!(buffer, [None; 8]);
}

#[test]
fn oversized_write_count_is_not_committed() {
    let mut stream = BufStream::with_capacity(Liar, 4);
    assert_eq!(stream.write(b"ab").unwrap(), 2);
    assert!(stream.send_pending().is_ok());
    assert_eq!(stream.pending_bytes(), b"ab".to_vec());
}

#[test]
fn full_input_ring_grows_before_reading() {
    let mut stream = BufStream::new(Chunks::new(&[b"a"]));
    stream.buffer_read().unwrap();
    let mut buffer = [None; 2];
    assert_eq!(stream.read_into(&mut buffer), 1);
    assert_eq!(buffer[0], Some(b'a'));
}

#[test]
fn consume_sent_drops_only_counts_in_range() {
    let mut stream = BufStream::with_capacity(Chunks::new(&[]), 8);
    assert_eq!(stream.buffer_write(b"abcd"), 4);
    assert!(!stream.consume_sent(0, 4));
    assert!(!stream.consume_sent(5, 4));
    assert_eq!(stream.pending_bytes(), b"abcd".to_vec());
    assert!(stream.consume_sent(3, 4));
    assert_eq!(stream.pending_bytes(), b"d".to_vec());
}
