//! A fixed-capacity staging buffer.
//!
//! The buffer holds at most `capacity` bytes. Reading consumes bytes from
//! the front; writing appends after the bytes written so far. Consumed
//! bytes still occupy their part of the capacity until `reset`, exactly as
//! two monotone cursors over a fixed byte region would behave.

use vstd::prelude::*;

use crate::error::Error;
use crate::io::copy_slice_range;
use crate::io::Read;
use crate::io::Write;

verus! {

/// A fixed-length buffer.
pub struct Buf {
    /// The unread bytes.
    live: Vec<u8>,
    /// How many bytes were consumed from the front since the last reset.
    consumed: usize,
    /// The fixed capacity.
    cap: usize,
}

impl View for Buf {
    type V = Seq<u8>;

    /// The unread contents.
    closed spec fn view(&self) -> Seq<u8> {
        self.live@
    }
}

impl Buf {
    /// The buffer is consistent: what was consumed and what is still held
    /// fit the fixed capacity together.
    pub open spec fn wf(&self) -> bool {
        self.read_off() + self@.len() <= self.capacity()
    }

    /// The fixed capacity.
    pub closed spec fn capacity(&self) -> nat {
        self.cap as nat
    }

    /// The position of the read cursor.
    pub closed spec fn read_off(&self) -> nat {
        self.consumed as nat
    }

    /// The position of the write cursor; bytes up to here count against
    /// the capacity.
    pub open spec fn write_off(&self) -> nat {
        self.read_off() + self@.len()
    }

    /// How many more bytes the buffer accepts.
    pub open spec fn free(&self) -> nat {
        (self.capacity() - self.write_off()) as nat
    }

    /// An empty buffer of capacity `cap`.
    pub fn new(cap: usize) -> (r: Buf)
        ensures
            r.wf(),
            r@ == Seq::<u8>::empty(),
            r.capacity() == cap,
            r.read_off() == 0,
    {
        Buf { live: Vec::new(), consumed: 0, cap }
    }

    /// An empty buffer of capacity `cap`; the element is what the backing
    /// region is conceptually filled with and is never observable.
    pub fn from_elem(_elem: u8, cap: usize) -> (r: Buf)
        ensures
            r.wf(),
            r@ == Seq::<u8>::empty(),
            r.capacity() == cap,
            r.read_off() == 0,
    {
        Buf::new(cap)
    }

    /// Reports whether all bytes have been read.
    pub fn is_empty(&self) -> (r: bool)
        ensures
            r == (self@.len() == 0),
    {
        self.live.len() == 0
    }

    /// Reports whether the buffer is full and no more data can be written.
    pub fn is_full(&self) -> (r: bool)
        requires
            self.wf(),
        ensures
            r == (self@.len() == self.capacity()),
    {
        self.live.len() == self.cap
    }

    /// Returns the number of unread bytes in the buffer.
    pub fn len(&self) -> (r: usize)
        ensures
            r == self@.len(),
    {
        self.live.len()
    }

    /// Resets the buffer to empty.
    pub fn reset(&mut self)
        ensures
            final(self).wf(),
            final(self)@ == Seq::<u8>::empty(),
            final(self).capacity() == old(self).capacity(),
            final(self).read_off() == 0,
    {
        self.live.clear();
        self.consumed = 0;
    }

    /// Discards all but the first `n` unread bytes; `n == 0` resets the
    /// buffer entirely.
    pub fn truncate(&mut self, n: usize)
        requires
            old(self).wf(),
            n <= old(self)@.len(),
        ensures
            final(self).wf(),
            final(self)@ == old(self)@.take(n as int),
            final(self).capacity() == old(self).capacity(),
            final(self).read_off() == (if n == 0 {
                0nat
            } else {
                old(self).read_off()
            }),
    {
        if n == 0 {
            self.reset();
            proof {
                assert(final(self)@ =~= old(self)@.take(0));
            }
            return ;
        }
        while self.live.len() > n
            invariant
                n <= self.live@.len(),
                self.live@.len() <= old(self).live@.len(),
                self.live@ == old(self).live@.take(self.live@.len() as int),
                self.consumed == old(self).consumed,
                self.cap == old(self).cap,
                old(self).wf(),
            decreases self.live@.len(),
        {
            self.live.pop();
            proof {
                assert(self.live@ =~= old(self).live@.take(self.live@.len() as int));
            }
        }
    }

    /// Returns a copy of the unread portion of the buffer.
    pub fn remaining_slice(&self) -> (r: Vec<u8>)
        ensures
            r@ == self@,
    {
        let r = copy_slice_range(self.live.as_slice(), 0, self.live.len());
        proof {
            assert(r@ =~= self@);
        }
        r
    }

    /// Copies at most `max` unread bytes out of the buffer, consuming
    /// them.
    pub fn read(&mut self, max: usize) -> (r: Vec<u8>)
        requires
            old(self).wf(),
        ensures
            final(self).wf(),
            r@.len() == (if max < old(self)@.len() {
                max as int
            } else {
                old(self)@.len() as int
            }),
            r@ == old(self)@.take(r@.len() as int),
            final(self)@ == old(self)@.skip(r@.len() as int),
            final(self).capacity() == old(self).capacity(),
            final(self).read_off() == old(self).read_off() + r@.len(),
    {
        let n = if max < self.live.len() {
            max
        } else {
            self.live.len()
        };
        let out = copy_slice_range(self.live.as_slice(), 0, n);
        let rest = copy_slice_range(self.live.as_slice(), n, self.live.len() - n);
        proof {
            assert(out@ =~= self@.take(n as int));
            assert(rest@ =~= self@.skip(n as int));
        }
        self.live = rest;
        self.consumed = self.consumed + n;
        out
    }

    /// Appends bytes from `src[from..]`, as many as fit; returns how many
    /// were accepted.
    pub fn write(&mut self, src: &[u8], from: usize) -> (n: usize)
        requires
            old(self).wf(),
            from <= src@.len(),
        ensures
            final(self).wf(),
            n == (if old(self).free() < src@.len() - from {
                old(self).free() as int
            } else {
                src@.len() - from
            }),
            final(self)@ == old(self)@ + src@.subrange(from as int, from as int + n as int),
            final(self).capacity() == old(self).capacity(),
            final(self).read_off() == old(self).read_off(),
    {
        let space = self.cap - self.consumed - self.live.len();
        let offered = src.len() - from;
        let n = if space < offered {
            space
        } else {
            offered
        };
        let mut part = copy_slice_range(src, from, n);
        self.live.append(&mut part);
        n
    }

    /// Reads from `src` until the buffer is full or `src` reaches EOF;
    /// returns the number of bytes pulled in.
    pub fn read_from<R: Read>(&mut self, src: &mut R) -> (r: Result<usize, Error>)
        requires
            old(self).wf(),
        ensures
            final(self).wf(),
            final(self).capacity() == old(self).capacity(),
            final(self).read_off() == old(self).read_off(),
            final(src).never_fails() == old(src).never_fails(),
            old(src).never_fails() ==> r is Ok,
            match r {
                Ok(n) => {
                    &&& n == (if old(self).free() < old(src).avail().len() {
                        old(self).free() as int
                    } else {
                        old(src).avail().len() as int
                    })
                    &&& final(self)@ == old(self)@ + old(src).avail().take(n as int)
                    &&& final(src).avail() == old(src).avail().skip(n as int)
                },
                Err(_) => true,
            },
    {
        let ghost a = old(src).avail();
        let mut n: usize = 0;
        proof {
            assert(old(self)@ + a.take(0) =~= old(self)@);
        }
        loop
            invariant
                a == old(src).avail(),
                self.wf(),
                self.capacity() == old(self).capacity(),
                self.read_off() == old(self).read_off(),
                src.never_fails() == old(src).never_fails(),
                n <= a.len(),
                n == old(self).free() - self.free(),
                self@ == old(self)@ + a.take(n as int),
                src.avail() == a.skip(n as int),
            decreases self.free(),
        {
            let space = self.cap - self.consumed - self.live.len();
            if space == 0 {
                return Ok(n);
            }
            match src.read(space) {
                Ok(chunk) => {
                    if chunk.len() == 0 {
                        proof {
                            assert(a.len() - n == 0);
                            assert(a.take(n as int) =~= a);
                        }
                        return Ok(n);
                    }
                    let ghost got = chunk@.len() as int;
                    let mut chunk = chunk;
                    n = n + chunk.len();
                    self.live.append(&mut chunk);
                    proof {
                        assert(self@ =~= old(self)@ + a.take(n as int));
                        assert(src.avail() =~= a.skip(n as int));
                    }
                },
                Err(e) => {
                    return Err(e);
                },
            }
        }
    }

    /// Writes the entire contents of the buffer to `w`; on a short write
    /// the bytes accepted so far are consumed, and if nothing at all was
    /// accepted the buffer is reset so a retry starts fresh.
    pub fn write_to<W: Write>(&mut self, w: &mut W) -> (r: Result<usize, Error>)
        requires
            old(self).wf(),
        ensures
            final(self).wf(),
            final(self).capacity() == old(self).capacity(),
            final(w).never_fails() == old(w).never_fails(),
            old(w).never_fails() ==> (r matches Ok(n) && n == old(self)@.len()),
            match r {
                Ok(n) => {
                    &&& n <= old(self)@.len()
                    &&& final(w).sunk() == old(w).sunk() + old(self)@.take(n as int)
                    &&& (n > 0 ==> final(self)@ == old(self)@.skip(n as int))
                    &&& (n == 0 ==> final(self)@ == Seq::<u8>::empty() && final(self).read_off()
                        == 0)
                },
                Err(_) => true,
            },
    {
        let ghost a = old(self)@;
        let mut n: usize = 0;
        proof {
            assert(old(w).sunk() + a.take(0) =~= old(w).sunk());
            assert(a.skip(0) =~= a);
        }
        loop
            invariant
                a == old(self)@,
                self.wf(),
                self.capacity() == old(self).capacity(),
                w.never_fails() == old(w).never_fails(),
                n <= a.len(),
                self@ == a.skip(n as int),
                w.sunk() == old(w).sunk() + a.take(n as int),
                n > 0 ==> self.read_off() == old(self).read_off() + n,
                n == 0 ==> self == old(self),
            decreases a.len() - n,
        {
            if self.live.len() == 0 {
                if n == 0 {
                    self.reset();
                }
                proof {
                    assert(a.take(n as int) =~= a.take(a.len() as int));
                    assert(a.take(a.len() as int) =~= a);
                }
                return Ok(n);
            }
            let part = self.remaining_slice();
            match w.write(part.as_slice()) {
                Ok(m) => {
                    if m == 0 {
                        if n == 0 {
                            self.reset();
                        }
                        return Ok(n);
                    }
                    let delivered = self.read(m);
                    proof {
                        assert(a.take(n as int) + a.skip(n as int).take(m as int) =~= a.take(
                            n as int + m as int,
                        ));
                        assert(a.skip(n as int).skip(m as int) =~= a.skip(n as int + m as int));
                        assert(a.skip(n as int).take(m as int) == part@.take(m as int));
                    }
                    n = n + m;
                },
                Err(e) => {
                    return Err(e);
                },
            }
        }
    }
}


impl Drop for Buf {
    /// Relies on `zeroize::Zeroize` for `Vec<u8>`: overwrites the held
    /// bytes (and the vector's spare capacity) before the memory is
    /// released, as defense in depth against staged plaintext lingering.
    #[verifier::external_body]
    fn drop(&mut self)
        opens_invariants none
        no_unwind
    {
        zeroize::Zeroize::zeroize(&mut self.live);
    }
}

} // verus!
