//! Minimal blocking byte-source and byte-sink abstractions.
//!
//! The reader and the writer operate over these two traits. A source hands
//! out a prefix of the bytes it still holds; a zero-length result on a
//! non-empty request signals EOF, and EOF is permanent. A sink accepts a
//! prefix of the bytes offered to it; accepting zero bytes signals a short
//! write.

use vstd::prelude::*;

use crate::error::Error;

verus! {

/// A blocking byte source.
pub trait Read: Sized {
    /// The bytes the source still holds, in the order it will hand
    /// them out.
    spec fn avail(&self) -> Seq<u8>;

    /// Whether this source can be relied on never to fail. A source over
    /// memory is; one over a device need not be.
    spec fn never_fails(&self) -> bool;

    /// Pulls at most `max` bytes. The bytes pulled are the next bytes the
    /// source holds; fewer than `max` may come back even before EOF, but
    /// an empty result on a non-empty request means the source is
    /// exhausted.
    fn read(&mut self, max: usize) -> (r: Result<Vec<u8>, Error>)
        ensures
            old(self).never_fails() ==> r is Ok,
            final(self).never_fails() == old(self).never_fails(),
            match r {
                Ok(v) => {
                    &&& v@.len() <= max
                    &&& v@.len() <= old(self).avail().len()
                    &&& v@ == old(self).avail().take(v@.len() as int)
                    &&& final(self).avail() == old(self).avail().skip(v@.len() as int)
                    &&& (v@.len() == 0 ==> max == 0 || old(self).avail().len() == 0)
                },
                Err(_) => final(self).avail() == old(self).avail(),
            },
    ;
}

/// A blocking byte sink.
pub trait Write: Sized {
    /// The bytes the sink has accepted so far, in order.
    spec fn sunk(&self) -> Seq<u8>;

    /// Whether this sink can be relied on to accept every byte offered to
    /// it and never to fail.
    spec fn never_fails(&self) -> bool;

    /// Offers `buf`; the sink accepts some prefix of it and reports how
    /// long that prefix was. Accepting nothing — never an error — is how
    /// a sink signals a short write.
    fn write(&mut self, buf: &[u8]) -> (r: Result<usize, Error>)
        ensures
            old(self).never_fails() ==> (r matches Ok(n) && n == buf@.len()),
            final(self).never_fails() == old(self).never_fails(),
            match r {
                Ok(n) => n <= buf@.len() && final(self).sunk() == old(self).sunk() + buf@.take(
                    n as int,
                ),
                Err(e) => !(e is ShortWrite) && final(self).sunk() == old(self).sunk(),
            },
    ;

    /// Pushes buffered bytes through. The bytes accepted so far do not
    /// change.
    fn flush(&mut self) -> (r: Result<(), Error>)
        ensures
            old(self).never_fails() ==> r is Ok,
            final(self).never_fails() == old(self).never_fails(),
            final(self).sunk() == old(self).sunk(),
            final(self).never_fails() == old(self).never_fails(),
    ;
}

/// Pulls exactly `n` bytes from `src`, or fails with `UnexpectedEof`
/// carrying the number of bytes that were obtained.
pub fn read_exact<R: Read>(src: &mut R, n: usize) -> (r: Result<Vec<u8>, Error>)
    ensures
        match r {
            Ok(v) => {
                &&& v@.len() == n
                &&& old(src).avail().len() >= n
                &&& v@ == old(src).avail().take(n as int)
                &&& final(src).avail() == old(src).avail().skip(n as int)
            },
            Err(_) => true,
        },
        old(src).never_fails() && old(src).avail().len() >= n ==> r is Ok,
        old(src).never_fails() && old(src).avail().len() < n ==> r == Err::<Vec<u8>, Error>(
            Error::UnexpectedEof(old(src).avail().len() as usize),
        ),
        final(src).never_fails() == old(src).never_fails(),
{
    let mut out: Vec<u8> = Vec::new();
    loop
        invariant
            out@.len() <= n,
            out@.len() <= old(src).avail().len(),
            out@ == old(src).avail().take(out@.len() as int),
            src.avail() == old(src).avail().skip(out@.len() as int),
            src.never_fails() == old(src).never_fails(),
        decreases n - out@.len(),
    {
        if out.len() == n {
            return Ok(out);
        }
        let want = n - out.len();
        match src.read(want) {
            Ok(chunk) => {
                if chunk.len() == 0 {
                    proof {
                        assert(old(src).avail().len() == out@.len());
                        assert(old(src).avail().take(out@.len() as int) =~= old(src).avail());
                    }
                    return Err(Error::UnexpectedEof(out.len()));
                }
                let ghost done = out@.len() as int;
                let ghost got = chunk@.len() as int;
                let mut chunk = chunk;
                out.append(&mut chunk);
                proof {
                    assert(out@ =~= old(src).avail().take(done + got));
                    assert(src.avail() =~= old(src).avail().skip(done + got));
                }
            },
            Err(e) => {
                return Err(e);
            },
        }
    }
}

/// Offers all of `buf` to `w`, retrying on partial acceptance; fails with
/// `ShortWrite` carrying the number of bytes accepted when the sink stops
/// taking bytes.
pub fn write_all<W: Write>(w: &mut W, buf: &[u8]) -> (r: Result<(), Error>)
    ensures
        r is Ok ==> final(w).sunk() == old(w).sunk() + buf@,
        r matches Err(Error::ShortWrite(n)) ==> n < buf@.len() && final(w).sunk() == old(w).sunk()
            + buf@.take(n as int),
        old(w).never_fails() ==> r is Ok,
        final(w).never_fails() == old(w).never_fails(),
{
    let mut done: usize = 0;
    loop
        invariant
            done <= buf@.len(),
            w.sunk() == old(w).sunk() + buf@.take(done as int),
            w.never_fails() == old(w).never_fails(),
        decreases buf@.len() - done,
    {
        if done == buf.len() {
            proof {
                assert(buf@.take(done as int) =~= buf@);
            }
            return Ok(());
        }
        let part = slice_tail(buf, done);
        match w.write(part.as_slice()) {
            Ok(n) => {
                if n == 0 {
                    return Err(Error::ShortWrite(done));
                }
                proof {
                    assert(buf@.take(done as int) + part@.take(n as int) =~= buf@.take(
                        done as int + n,
                    ));
                }
                done = done + n;
            },
            Err(e) => {
                return Err(e);
            },
        }
    }
}

/// Copies `src[from..from + n]` into a fresh vector.
pub fn copy_slice_range(src: &[u8], from: usize, n: usize) -> (r: Vec<u8>)
    requires
        from + n <= src@.len(),
    ensures
        r@ == src@.subrange(from as int, from as int + n as int),
{
    let total = src.len();
    let mut r: Vec<u8> = Vec::new();
    let mut i: usize = 0;
    while i < n
        invariant
            i <= n,
            from + n <= total,
            total == src@.len(),
            r@ == src@.subrange(from as int, from as int + i as int),
        decreases n - i,
    {
        let b = src[from + i];
        r.push(b);
        proof {
            assert(r@ =~= src@.subrange(from as int, from as int + i as int + 1));
        }
        i = i + 1;
    }
    r
}

/// Copies `src[from..]` into a fresh vector.
pub fn slice_tail(src: &[u8], from: usize) -> (r: Vec<u8>)
    requires
        from <= src@.len(),
    ensures
        r@ == src@.skip(from as int),
{
    let n = src.len() - from;
    let r = copy_slice_range(src, from, n);
    proof {
        assert(r@ =~= src@.skip(from as int));
    }
    r
}

/// A byte source over an in-memory vector.
pub struct BytesReader {
    data: Vec<u8>,
    pos: usize,
}

impl BytesReader {
    /// Wraps `data` as a source that hands its bytes out from the front.
    pub fn new(data: Vec<u8>) -> (r: BytesReader)
        ensures
            r.avail() == data@,
            r.never_fails(),
    {
        let r = BytesReader { data, pos: 0 };
        proof {
            assert(r.avail() =~= r.data@);
        }
        r
    }
}

impl Read for BytesReader {
    closed spec fn avail(&self) -> Seq<u8> {
        if self.pos <= self.data@.len() {
            self.data@.skip(self.pos as int)
        } else {
            Seq::empty()
        }
    }

    closed spec fn never_fails(&self) -> bool {
        true
    }

    fn read(&mut self, max: usize) -> (r: Result<Vec<u8>, Error>) {
        let len = self.data.len();
        if self.pos >= len {
            return Ok(Vec::new());
        }
        let remain = len - self.pos;
        let n = if max < remain {
            max
        } else {
            remain
        };
        let out = copy_slice_range(self.data.as_slice(), self.pos, n);
        proof {
            assert(out@ =~= self.avail().take(n as int));
        }
        self.pos = self.pos + n;
        proof {
            assert(self.avail() =~= old(self).avail().skip(n as int));
        }
        Ok(out)
    }
}

/// A byte source over an in-memory vector that hands out at most a few
/// bytes per call, in a one-two-three cycle: partial reads are legal for
/// any source, and a consumer must cope with them.
pub struct SmallByteReader {
    data: Vec<u8>,
    pos: usize,
    step: usize,
}

impl SmallByteReader {
    /// Wraps `data` as a deliberately slow source.
    pub fn new(data: Vec<u8>) -> (r: SmallByteReader)
        ensures
            r.avail() == data@,
            r.never_fails(),
    {
        let r = SmallByteReader { data, pos: 0, step: 0 };
        proof {
            assert(r.avail() =~= r.data@);
        }
        r
    }
}

impl Read for SmallByteReader {
    closed spec fn avail(&self) -> Seq<u8> {
        if self.pos <= self.data@.len() {
            self.data@.skip(self.pos as int)
        } else {
            Seq::empty()
        }
    }

    closed spec fn never_fails(&self) -> bool {
        true
    }

    fn read(&mut self, max: usize) -> (r: Result<Vec<u8>, Error>) {
        self.step = (self.step % 3) + 1;
        let len = self.data.len();
        if self.pos >= len || max == 0 {
            return Ok(Vec::new());
        }
        let remain = len - self.pos;
        let mut n = if self.step < max {
            self.step
        } else {
            max
        };
        if remain < n {
            n = remain;
        }
        let out = copy_slice_range(self.data.as_slice(), self.pos, n);
        proof {
            assert(out@ =~= self.avail().take(n as int));
        }
        self.pos = self.pos + n;
        proof {
            assert(self.avail() =~= old(self).avail().skip(n as int));
        }
        Ok(out)
    }
}

/// A byte sink over an in-memory vector; it accepts every byte offered.
pub struct VecSink {
    data: Vec<u8>,
}

impl VecSink {
    /// An empty sink.
    pub fn new() -> (r: VecSink)
        ensures
            r.sunk() == Seq::<u8>::empty(),
            r.never_fails(),
    {
        VecSink { data: Vec::new() }
    }

    /// Hands the accepted bytes over.
    pub fn into_vec(self) -> (r: Vec<u8>)
        ensures
            r@ == self.sunk(),
    {
        self.data
    }

    /// The number of bytes accepted so far.
    pub fn len(&self) -> (r: usize)
        ensures
            r == self.sunk().len(),
    {
        self.data.len()
    }
}

impl Write for VecSink {
    closed spec fn sunk(&self) -> Seq<u8> {
        self.data@
    }

    closed spec fn never_fails(&self) -> bool {
        true
    }

    fn write(&mut self, buf: &[u8]) -> (r: Result<usize, Error>) {
        let mut incoming = slice_tail(buf, 0);
        let n = incoming.len();
        self.data.append(&mut incoming);
        proof {
            assert(buf@.skip(0) =~= buf@);
            assert(self.data@ =~= old(self).sunk() + buf@.take(n as int));
        }
        Ok(n)
    }

    fn flush(&mut self) -> (r: Result<(), Error>) {
        Ok(())
    }
}

} // verus!
