//! The encrypting side of a stream.
//!
//! A writer emits the header once at construction, stages plaintext in a
//! chunk-sized buffer, and seals one chunk whenever the buffer boundary is
//! crossed. Version one checks for a full buffer before appending, so a
//! full buffer lingers until more plaintext arrives and the final chunk
//! may be exactly full; version two seals immediately when the buffer
//! fills, so the final chunk is always strictly short. An explicit
//! `flush` seals the terminal chunk carrying the EOF flag; without it the
//! stream is truncated and will not verify.

use vstd::prelude::*;

use crate::buf::Buf;
use crate::crypto::aead_len_ok;
use crate::crypto::aead_seal;
use crate::crypto::derived_key;
use crate::crypto::fill_random;
use crate::crypto::hkdf_derive;
use crate::crypto::KEY_SIZE;
use crate::error::Error;
use crate::io::write_all;
use crate::io::VecSink;
use crate::io::Write;
use crate::version::Version;
use crate::wire::body_bytes;
use crate::wire::build_nonce;
use crate::wire::chunk_bytes;
use crate::wire::counter_fits;
use crate::wire::full_chunks;
use crate::wire::header_bytes;
use crate::wire::lemma_fc_one;
use crate::wire::lemma_fc_two;
use crate::wire::lemma_full_chunks_monotonic;
use crate::wire::lemma_stream_len;
use crate::wire::size_spec;
use crate::wire::stream_bytes;
use crate::wire::HEADER_SIZE;
use crate::wire::PREFIX_SIZE;
use crate::wire::SALT_SIZE;

verus! {

/// Options for configuring a [`Writer`].
pub struct WriterOpts {
    version: Version,
    ad: Vec<u8>,
    info: Vec<u8>,
}

impl WriterOpts {
    /// The wire version the writer will emit.
    pub closed spec fn version_spec(&self) -> Version {
        self.version
    }

    /// The associated data bound to every chunk.
    pub closed spec fn ad_spec(&self) -> Seq<u8> {
        self.ad@
    }

    /// The key-derivation context.
    pub closed spec fn info_spec(&self) -> Seq<u8> {
        self.info@
    }

    /// The default set of options: version two, no associated data, no
    /// key-derivation context.
    pub fn new() -> (r: WriterOpts)
        ensures
            r.version_spec() == Version::Two,
            r.ad_spec() == Seq::<u8>::empty(),
            r.info_spec() == Seq::<u8>::empty(),
    {
        WriterOpts { version: Version::Two, ad: Vec::new(), info: Vec::new() }
    }

    /// Selects the wire version.
    pub fn with_version(self, v: Version) -> (r: WriterOpts)
        ensures
            r.version_spec() == v,
            r.ad_spec() == self.ad_spec(),
            r.info_spec() == self.info_spec(),
    {
        WriterOpts { version: v, ..self }
    }

    /// Sets the additional authenticated data bound to every chunk,
    /// typically used to tie the ciphertext to a context.
    pub fn with_additional_data(self, ad: Vec<u8>) -> (r: WriterOpts)
        ensures
            r.version_spec() == self.version_spec(),
            r.ad_spec() == ad@,
            r.info_spec() == self.info_spec(),
    {
        WriterOpts { ad, ..self }
    }

    /// Sets the HKDF `info` parameter used when deriving the per-stream
    /// key, typically used to bind the key to a context.
    pub fn with_info(self, info: Vec<u8>) -> (r: WriterOpts)
        ensures
            r.version_spec() == self.version_spec(),
            r.ad_spec() == self.ad_spec(),
            r.info_spec() == info@,
    {
        WriterOpts { info, ..self }
    }

    /// Builds the options.
    pub fn build(self) -> (r: WriterOpts)
        ensures
            r.version_spec() == self.version_spec(),
            r.ad_spec() == self.ad_spec(),
            r.info_spec() == self.info_spec(),
    {
        self
    }
}

impl Default for WriterOpts {
    /// The same options as [`WriterOpts::new`].
    fn default() -> (r: WriterOpts)
        ensures
            r.version_spec() == Version::Two,
            r.ad_spec() == Seq::<u8>::empty(),
            r.info_spec() == Seq::<u8>::empty(),
    {
        WriterOpts::new()
    }
}

/// Encrypts a stream, writing ciphertext to a byte sink.
pub struct Writer<W> {
    /// The underlying ciphertext sink.
    sink: W,
    /// The derived per-stream key.
    key: Vec<u8>,
    /// The random nonce prefix.
    prefix: Vec<u8>,
    /// The chunk counter.
    ctr: u32,
    /// The staging buffer, one chunk in size.
    buf: Buf,
    /// Additional authenticated data.
    ad: Vec<u8>,
    /// The wire version being written.
    version: Version,
    /// The input key material the key was derived from.
    ikm: Ghost<Seq<u8>>,
    /// The random salt emitted in the header.
    salt: Ghost<Seq<u8>>,
    /// The key-derivation context.
    info: Ghost<Seq<u8>>,
    /// All plaintext accepted so far.
    accepted: Ghost<Seq<u8>>,
    /// What the sink held before the stream began.
    base: Ghost<Seq<u8>>,
}

impl<W: Write> Writer<W> {
    /// Everything the sink has accepted.
    pub closed spec fn sunk(&self) -> Seq<u8> {
        self.sink.sunk()
    }

    /// What the sink held before the stream began.
    pub closed spec fn base(&self) -> Seq<u8> {
        self.base@
    }

    /// All plaintext accepted so far.
    pub closed spec fn accepted(&self) -> Seq<u8> {
        self.accepted@
    }

    /// The wire version being written.
    pub closed spec fn cfg_version(&self) -> Version {
        self.version
    }

    /// The associated data bound to every chunk.
    pub closed spec fn cfg_ad(&self) -> Seq<u8> {
        self.ad@
    }

    /// The key-derivation context.
    pub closed spec fn cfg_info(&self) -> Seq<u8> {
        self.info@
    }

    /// The input key material.
    pub closed spec fn cfg_ikm(&self) -> Seq<u8> {
        self.ikm@
    }

    /// The chunk size.
    pub closed spec fn cfg_chunk(&self) -> nat {
        self.buf.capacity()
    }

    /// The random salt emitted in the header.
    pub closed spec fn hdr_salt(&self) -> Seq<u8> {
        self.salt@
    }

    /// The random nonce prefix emitted in the header.
    pub closed spec fn hdr_prefix(&self) -> Seq<u8> {
        self.prefix@
    }

    /// Whether the underlying sink is relied on never to fail.
    pub closed spec fn reliable(&self) -> bool {
        self.sink.never_fails()
    }

    /// The full stream this writer would have produced for plaintext
    /// `pt`.
    pub open spec fn stream_of(&self, pt: Seq<u8>) -> Seq<u8> {
        stream_bytes(
            self.cfg_ikm(),
            self.hdr_salt(),
            self.hdr_prefix(),
            self.cfg_version(),
            self.cfg_ad(),
            self.cfg_info(),
            self.cfg_chunk(),
            pt,
        )
    }

    /// The two writers describe the same stream: same configuration, same
    /// header randomness, same sink prehistory.
    pub open spec fn same_stream(&self, other: &Self) -> bool {
        &&& self.cfg_version() == other.cfg_version()
        &&& self.cfg_ad() == other.cfg_ad()
        &&& self.cfg_info() == other.cfg_info()
        &&& self.cfg_ikm() == other.cfg_ikm()
        &&& self.cfg_chunk() == other.cfg_chunk()
        &&& self.hdr_salt() == other.hdr_salt()
        &&& self.hdr_prefix() == other.hdr_prefix()
        &&& self.base() == other.base()
        &&& self.reliable() == other.reliable()
    }

    /// If the plaintext accepted so far were completed by `rest`, the
    /// bytes at the sink so far plus the remaining chunks would form
    /// exactly the stream of `accepted + rest`.
    pub closed spec fn completes_to(&self, rest: Seq<u8>) -> bool {
        self.sunk() + body_bytes(
            self.key@,
            self.prefix@,
            self.ad@,
            self.cfg_chunk(),
            self.version,
            self.ctr,
            self.buf@ + rest,
        ) == self.base@ + header_bytes(self.version, self.salt@, self.prefix@) + body_bytes(
            self.key@,
            self.prefix@,
            self.ad@,
            self.cfg_chunk(),
            self.version,
            0,
            self.accepted@ + rest,
        )
    }

    /// The writer's invariant.
    pub closed spec fn wf(&self) -> bool {
        &&& self.key@.len() == KEY_SIZE
        &&& self.key@ == derived_key(self.ikm@, self.salt@, self.info@)
        &&& self.salt@.len() == SALT_SIZE
        &&& self.prefix@.len() == PREFIX_SIZE
        &&& self.buf.wf()
        &&& self.buf.read_off() == 0
        &&& self.buf.capacity() >= 1
        &&& aead_len_ok(self.buf.capacity())
        &&& (self.version == Version::Two ==> self.buf@.len() < self.buf.capacity())
        &&& (self.version == Version::One && self.accepted@.len() > 0 ==> self.buf@.len() > 0)
        &&& self.accepted@.len() == self.ctr * self.cfg_chunk() + self.buf@.len()
        &&& self.ctr == full_chunks(self.cfg_chunk(), self.version, self.accepted@.len())
        &&& forall|rest: Seq<u8>| #[trigger] self.completes_to(rest)
    }

    /// Creates a writer with the default options and chunk size.
    pub fn new(sink: W, ikm: &[u8]) -> (r: Result<Writer<W>, Error>)
        requires
            ikm@.len() == KEY_SIZE,
        ensures
            r matches Ok(w) ==> {
                &&& w.wf()
                &&& w.accepted() == Seq::<u8>::empty()
                &&& w.base() == sink.sunk()
                &&& w.cfg_version() == Version::Two
                &&& w.cfg_ad() == Seq::<u8>::empty()
                &&& w.cfg_info() == Seq::<u8>::empty()
                &&& w.cfg_ikm() == ikm@
                &&& w.cfg_chunk() == crate::DEFAULT_CHUNK_SIZE
                &&& w.reliable() == sink.never_fails()
            },
            sink.never_fails() ==> (r is Ok || (r matches Err(e) && e is Rand)),
    {
        proof {
            assert(aead_len_ok(crate::DEFAULT_CHUNK_SIZE as nat));
        }
        Self::new_with(sink, ikm, &WriterOpts::new(), crate::DEFAULT_CHUNK_SIZE)
    }

    /// Creates a writer that emits the header to `sink` and then encrypts
    /// chunks of `chunk_size` bytes under the options' version, associated
    /// data, and key-derivation context.
    pub fn new_with(sink: W, ikm: &[u8], opts: &WriterOpts, chunk_size: usize) -> (r: Result<
        Writer<W>,
        Error,
    >)
        requires
            ikm@.len() == KEY_SIZE,
            chunk_size >= 1,
            aead_len_ok(chunk_size as nat),
        ensures
            r matches Ok(w) ==> {
                &&& w.wf()
                &&& w.accepted() == Seq::<u8>::empty()
                &&& w.base() == sink.sunk()
                &&& w.cfg_version() == opts.version_spec()
                &&& w.cfg_ad() == opts.ad_spec()
                &&& w.cfg_info() == opts.info_spec()
                &&& w.cfg_ikm() == ikm@
                &&& w.cfg_chunk() == chunk_size
                &&& w.reliable() == sink.never_fails()
            },
            sink.never_fails() ==> (r is Ok || (r matches Err(e) && e is Rand)),
    {
        let mut sink = sink;
        let ghost base = sink.sunk();
        let version = opts.version;
        let vb = version.to_bytes();
        match write_all(&mut sink, vb.as_slice()) {
            Ok(()) => (),
            Err(e) => {
                return Err(e);
            },
        }
        let salt = match fill_random(SALT_SIZE) {
            Ok(v) => v,
            Err(e) => {
                return Err(e);
            },
        };
        match write_all(&mut sink, salt.as_slice()) {
            Ok(()) => (),
            Err(e) => {
                return Err(e);
            },
        }
        let prefix = match fill_random(PREFIX_SIZE) {
            Ok(v) => v,
            Err(e) => {
                return Err(e);
            },
        };
        match write_all(&mut sink, prefix.as_slice()) {
            Ok(()) => (),
            Err(e) => {
                return Err(e);
            },
        }
        let key = hkdf_derive(ikm, salt.as_slice(), opts.info.as_slice());
        let w = Writer {
            sink,
            key,
            prefix,
            ctr: 0,
            buf: Buf::new(chunk_size),
            ad: crate::io::slice_tail(opts.ad.as_slice(), 0),
            version,
            ikm: Ghost(ikm@),
            salt: Ghost(salt@),
            info: Ghost(opts.info@),
            accepted: Ghost(Seq::empty()),
            base: Ghost(base),
        };
        proof {
            assert(opts.ad@.skip(0) =~= opts.ad@);
            assert(0nat * (chunk_size as nat) == 0) by (nonlinear_arith);
            assert(w.sunk() =~= w.base@ + header_bytes(version, salt@, prefix@));
            assert forall|rest: Seq<u8>| #[trigger] w.completes_to(rest) by {
                assert(w.buf@ + rest =~= rest);
                assert(w.accepted@ + rest =~= rest);
                assert(w.sunk() + body_bytes(
                    w.key@,
                    w.prefix@,
                    w.ad@,
                    w.cfg_chunk(),
                    version,
                    0,
                    rest,
                ) =~= w.base@ + header_bytes(version, w.salt@, w.prefix@) + body_bytes(
                    w.key@,
                    w.prefix@,
                    w.ad@,
                    w.cfg_chunk(),
                    version,
                    0,
                    rest,
                ));
            }
        }
        Ok(w)
    }

    /// Seals the staged bytes as one chunk — the terminal chunk when
    /// `eof` — writes it to the sink, and advances the counter for a
    /// non-final chunk.
    fn flush_internal(&mut self, eof: bool) -> (r: Result<(), Error>)
        requires
            old(self).key@.len() == KEY_SIZE,
            old(self).prefix@.len() == PREFIX_SIZE,
            old(self).buf.wf(),
            old(self).buf.read_off() == 0,
            aead_len_ok(old(self).buf@.len()),
        ensures
            final(self).key == old(self).key,
            final(self).prefix == old(self).prefix,
            final(self).ad == old(self).ad,
            final(self).version == old(self).version,
            final(self).ikm == old(self).ikm,
            final(self).salt == old(self).salt,
            final(self).info == old(self).info,
            final(self).accepted == old(self).accepted,
            final(self).base == old(self).base,
            final(self).buf.capacity() == old(self).buf.capacity(),
            final(self).sink.never_fails() == old(self).sink.never_fails(),
            old(self).sink.never_fails() && (eof || old(self).ctr < 0xffffffffu32) ==> r is Ok,
            old(self).sink.never_fails() && r is Err ==> r == Err::<(), Error>(
                Error::CounterOverflow,
            ) && !eof && old(self).ctr == 0xffffffffu32 && final(self).sunk() == old(self).sunk()
                + chunk_bytes(
                old(self).key@,
                old(self).prefix@,
                old(self).ctr,
                eof,
                old(self).ad@,
                old(self).buf@,
            ),
            match r {
                Ok(()) => {
                    &&& final(self).sunk() == old(self).sunk() + chunk_bytes(
                        old(self).key@,
                        old(self).prefix@,
                        old(self).ctr,
                        eof,
                        old(self).ad@,
                        old(self).buf@,
                    )
                    &&& final(self).buf@ == Seq::<u8>::empty()
                    &&& final(self).buf.wf()
                    &&& final(self).buf.read_off() == 0
                    &&& final(self).ctr == (if eof {
                        old(self).ctr as int
                    } else {
                        old(self).ctr + 1
                    })
                },
                Err(_) => final(self).ctr == old(self).ctr && final(self).buf == old(self).buf,
            },
    {
        let contents = self.buf.remaining_slice();
        let nonce = build_nonce(self.prefix.as_slice(), self.ctr, eof);
        match aead_seal(
            self.key.as_slice(),
            nonce.as_slice(),
            self.ad.as_slice(),
            contents,
        ) {
            Ok((ct, tag)) => {
                match write_all(&mut self.sink, ct.as_slice()) {
                    Ok(()) => (),
                    Err(e) => {
                        return Err(e);
                    },
                }
                match write_all(&mut self.sink, tag.as_slice()) {
                    Ok(()) => (),
                    Err(e) => {
                        return Err(e);
                    },
                }
                if !eof {
                    if self.ctr == 0xffffffffu32 {
                        return Err(Error::CounterOverflow);
                    }
                    self.ctr = self.ctr + 1;
                }
                self.buf.reset();
                proof {
                    assert(final(self).sunk() =~= old(self).sunk() + chunk_bytes(
                        old(self).key@,
                        old(self).prefix@,
                        old(self).ctr,
                        eof,
                        old(self).ad@,
                        old(self).buf@,
                    ));
                }
                Ok(())
            },
            Err(e) => Err(e),
        }
    }

    /// Accepts all of `src`, sealing a chunk whenever the staging buffer
    /// boundary is crossed, and reports how many bytes were accepted. On
    /// a reliable sink this fails only if the plaintext needs more
    /// non-final chunks than the 32-bit counter can number.
    pub fn write(&mut self, src: &[u8]) -> (r: Result<usize, Error>)
        requires
            old(self).wf(),
        ensures
            final(self).same_stream(old(self)),
            match r {
                Ok(n) => {
                    &&& n == src@.len()
                    &&& final(self).wf()
                    &&& final(self).accepted() == old(self).accepted() + src@
                },
                Err(_) => true,
            },
            old(self).reliable() && counter_fits(
                old(self).cfg_chunk(),
                old(self).cfg_version(),
                0,
                old(self).accepted().len() + src@.len(),
            ) ==> r is Ok,
            old(self).reliable() ==> (r is Ok || r == Err::<usize, Error>(Error::CounterOverflow)),
    {
        let ghost total = old(self).accepted().len() + src@.len();
        let mut i: usize = 0;
        proof {
            assert(old(self).accepted@ + src@.take(0) =~= old(self).accepted@);
        }
        loop
            invariant
                self.wf(),
                self.same_stream(old(self)),
                i <= src@.len(),
                self.accepted@ == old(self).accepted@ + src@.take(i as int),
                total == old(self).accepted().len() + src@.len(),
            decreases src@.len() - i,
        {
            if i == src.len() {
                proof {
                    assert(src@.take(src@.len() as int) =~= src@);
                }
                return Ok(i);
            }
            let ghost pre = *self;
            match self.version {
                Version::One => {
                    if self.buf.is_full() {
                        proof {
                            self.lemma_ctr_has_room(total, src@.len() - i);
                        }
                        match self.flush_internal(false) {
                            Ok(()) => (),
                            Err(e) => {
                                return Err(e);
                            },
                        }
                    }
                    let ghost mid = *self;
                    let took = self.buf.write(src, i);
                    proof {
                        self.accepted = Ghost(
                            self.accepted@ + src@.subrange(i as int, i as int + took as int),
                        );
                        assert(self.accepted@ =~= old(self).accepted@ + src@.take(
                            i as int + took as int,
                        ));
                        pre.lemma_v1_step(mid, *self, src@, i as int, took as int);
                        pre.lemma_v1_wf(mid, *self, src@, i as int, took as int);
                    }
                    i = i + took;
                },
                Version::Two => {
                    let took = self.buf.write(src, i);
                    proof {
                        self.accepted = Ghost(
                            self.accepted@ + src@.subrange(i as int, i as int + took as int),
                        );
                        assert(self.accepted@ =~= old(self).accepted@ + src@.take(
                            i as int + took as int,
                        ));
                        pre.lemma_v2_fill(*self, src@, i as int, took as int);
                    }
                    if self.buf.is_full() {
                        let ghost mid = *self;
                        proof {
                            mid.lemma_ctr_has_room_v2(total);
                        }
                        match self.flush_internal(false) {
                            Ok(()) => (),
                            Err(e) => {
                                return Err(e);
                            },
                        }
                        proof {
                            mid.lemma_v2_emit(*self);
                        }
                    }
                    i = i + took;
                },
            }
        }
    }

    /// Seals whatever is staged — possibly nothing — as the terminal
    /// chunk. This is the only way to produce a valid stream end; the
    /// sink then holds exactly the stream of everything accepted, whose
    /// length obeys the size formula.
    pub fn flush(&mut self) -> (r: Result<(), Error>)
        requires
            old(self).wf(),
        ensures
            final(self).same_stream(old(self)),
            final(self).accepted() == old(self).accepted(),
            old(self).reliable() ==> r is Ok,
            match r {
                Ok(()) => {
                    &&& final(self).sunk() == old(self).base() + old(self).stream_of(
                        old(self).accepted(),
                    )
                    &&& final(self).sunk().len() == old(self).base().len() + size_spec(
                        old(self).accepted().len(),
                        old(self).cfg_chunk(),
                        old(self).cfg_version(),
                    )
                },
                Err(_) => true,
            },
    {
        let ghost pre = *self;
        proof {
            lemma_aead_len_monotone(pre.buf@.len(), pre.buf.capacity());
        }
        match self.flush_internal(true) {
            Ok(()) => (),
            Err(e) => {
                return Err(e);
            },
        }
        proof {
            assert(pre.completes_to(Seq::<u8>::empty()));
            assert(pre.buf@ + Seq::<u8>::empty() =~= pre.buf@);
            assert(pre.accepted@ + Seq::<u8>::empty() =~= pre.accepted@);
            let c = pre.cfg_chunk();
            let v = pre.version;
            assert(!crate::wire::has_full_chunk(v, c, pre.buf@.len()));
            assert(body_bytes(pre.key@, pre.prefix@, pre.ad@, c, v, pre.ctr, pre.buf@)
                == chunk_bytes(pre.key@, pre.prefix@, pre.ctr, true, pre.ad@, pre.buf@));
            assert(final(self).sunk() =~= pre.base@ + (header_bytes(v, pre.salt@, pre.prefix@)
                + body_bytes(pre.key@, pre.prefix@, pre.ad@, c, v, 0, pre.accepted@)));
            lemma_stream_len(
                pre.ikm@,
                pre.salt@,
                pre.prefix@,
                v,
                pre.ad@,
                pre.info@,
                c,
                pre.accepted@,
            );
        }
        Ok(())
    }

    /// Hands the underlying sink back.
    pub fn into_inner(self) -> (r: W)
        ensures
            r.sunk() == self.sunk(),
            r.never_fails() == self.reliable(),
    {
        self.sink
    }

    /// The counter has room for one more non-final chunk when a full
    /// version-one buffer is flushed to make space for bytes still to
    /// come.
    proof fn lemma_ctr_has_room(&self, total: nat, remaining: int)
        requires
            self.wf(),
            self.version == Version::One,
            self.buf@.len() == self.cfg_chunk(),
            remaining >= 1,
            self.accepted@.len() + remaining <= total,
        ensures
            self.reliable() && counter_fits(self.cfg_chunk(), self.version, 0, total)
                ==> self.ctr < 0xffffffffu32,
    {
        let c = self.cfg_chunk();
        let n = self.accepted@.len();
        if self.reliable() && counter_fits(c, self.version, 0, total) {
            assert(n == self.ctr * c + c);
            assert((self.ctr + 1) as nat * c + 1 == n + 1) by (nonlinear_arith)
                requires
                    n == self.ctr * c + c,
            ;
            lemma_fc_one(c, (self.ctr + 1) as nat, 1);
            lemma_full_chunks_monotonic(c, Version::One, (n + 1) as nat, total);
            assert(full_chunks(c, Version::One, (n + 1) as nat) == self.ctr + 1);
        }
    }

    /// The counter has room when a version-two buffer just filled.
    proof fn lemma_ctr_has_room_v2(&self, total: nat)
        requires
            self.wf_except_full(),
            self.version == Version::Two,
            self.buf@.len() == self.cfg_chunk(),
            self.accepted@.len() <= total,
            self.ctr_pre_emit(),
        ensures
            self.reliable() && counter_fits(self.cfg_chunk(), self.version, 0, total)
                ==> self.ctr < 0xffffffffu32,
    {
        let c = self.cfg_chunk();
        let n = self.accepted@.len();
        if self.reliable() && counter_fits(c, Version::Two, 0, total) {
            assert(full_chunks(c, Version::Two, n) == self.ctr + 1);
            lemma_full_chunks_monotonic(c, Version::Two, n, total);
        }
    }

    /// The invariant of a version-two writer between appending and
    /// sealing: the buffer may be exactly full, and the counter is then
    /// one behind the full-chunk count.
    pub closed spec fn wf_except_full(&self) -> bool {
        &&& self.key@.len() == KEY_SIZE
        &&& self.key@ == derived_key(self.ikm@, self.salt@, self.info@)
        &&& self.salt@.len() == SALT_SIZE
        &&& self.prefix@.len() == PREFIX_SIZE
        &&& self.buf.wf()
        &&& self.buf.read_off() == 0
        &&& self.buf.capacity() >= 1
        &&& aead_len_ok(self.buf.capacity())
        &&& forall|rest: Seq<u8>| #[trigger] self.completes_to(rest)
    }

    /// The counter is one behind the full-chunk count of the accepted
    /// plaintext.
    pub closed spec fn ctr_pre_emit(&self) -> bool {
        self.ctr + 1 == full_chunks(self.cfg_chunk(), self.version, self.accepted@.len())
    }

    /// A version-one iteration — a possible seal of the lingering full
    /// buffer, then an append — preserves the completion equation.
    proof fn lemma_v1_step(self, mid: Self, post: Self, src: Seq<u8>, i: int, took: int)
        requires
            self.wf(),
            self.version == Version::One,
            0 <= i,
            i + took <= src.len(),
            took >= 1,
            // how mid arose from self: either no seal (buffer not full)...
            (self.buf@.len() < self.cfg_chunk() && mid == self) || {
                // ...or the full buffer was sealed
                &&& self.buf@.len() == self.cfg_chunk()
                &&& mid.sunk() == self.sunk() + chunk_bytes(
                    self.key@,
                    self.prefix@,
                    self.ctr,
                    false,
                    self.ad@,
                    self.buf@,
                )
                &&& mid.buf@ == Seq::<u8>::empty()
                &&& mid.ctr == self.ctr + 1
                &&& mid.key == self.key
                &&& mid.prefix == self.prefix
                &&& mid.ad == self.ad
                &&& mid.version == self.version
                &&& mid.salt == self.salt
                &&& mid.base == self.base
                &&& mid.accepted == self.accepted
                &&& mid.buf.capacity() == self.buf.capacity()
            },
            // how post arose from mid: the append
            post.buf@ == mid.buf@ + src.subrange(i, i + took),
            post.sunk() == mid.sunk(),
            post.ctr == mid.ctr,
            post.key == mid.key,
            post.prefix == mid.prefix,
            post.ad == mid.ad,
            post.version == mid.version,
            post.salt == mid.salt,
            post.base == mid.base,
            post.accepted@ == mid.accepted@ + src.subrange(i, i + took),
            post.buf.capacity() == mid.buf.capacity(),
        ensures
            forall|rest: Seq<u8>| #[trigger] post.completes_to(rest),
    {
        let s = src.subrange(i, i + took);
        let c = self.cfg_chunk();
        assert forall|rest: Seq<u8>| #[trigger] post.completes_to(rest) by {
            assert(self.completes_to(s + rest));
            if self.buf@.len() < c && mid == self {
                assert(self.buf@ + (s + rest) =~= (self.buf@ + s) + rest);
                assert(self.accepted@ + (s + rest) =~= (self.accepted@ + s) + rest);
            } else {
                // sealing: the full buffer is the next chunk of the body
                let whole = self.buf@ + (s + rest);
                assert(took >= 1);
                assert(whole.len() > c);
                assert(crate::wire::has_full_chunk(Version::One, c, whole.len()));
                assert(whole.take(c as int) =~= self.buf@);
                assert(whole.skip(c as int) =~= s + rest);
                assert(body_bytes(self.key@, self.prefix@, self.ad@, c, Version::One, self.ctr, whole)
                    == chunk_bytes(self.key@, self.prefix@, self.ctr, false, self.ad@, self.buf@)
                    + body_bytes(
                    self.key@,
                    self.prefix@,
                    self.ad@,
                    c,
                    Version::One,
                    (self.ctr + 1) as u32,
                    s + rest,
                ));
                assert(post.buf@ + rest =~= s + rest);
                assert(post.accepted@ + rest =~= self.accepted@ + (s + rest));
                assert(self.sunk() + (chunk_bytes(
                    self.key@,
                    self.prefix@,
                    self.ctr,
                    false,
                    self.ad@,
                    self.buf@,
                ) + body_bytes(
                    self.key@,
                    self.prefix@,
                    self.ad@,
                    c,
                    Version::One,
                    (self.ctr + 1) as u32,
                    s + rest,
                )) =~= post.sunk() + body_bytes(
                    self.key@,
                    self.prefix@,
                    self.ad@,
                    c,
                    Version::One,
                    post.ctr,
                    post.buf@ + rest,
                ));
            }
        }
    }

    /// A version-one iteration restores the rest of the invariant.
    proof fn lemma_v1_wf(self, mid: Self, post: Self, src: Seq<u8>, i: int, took: int)
        requires
            self.wf(),
            self.version == Version::One,
            0 <= i,
            i + took <= src.len(),
            took >= 1,
            (self.buf@.len() < self.cfg_chunk() && mid == self) || {
                &&& self.buf@.len() == self.cfg_chunk()
                &&& mid.buf@ == Seq::<u8>::empty()
                &&& mid.ctr == self.ctr + 1
                &&& mid.accepted == self.accepted
                &&& mid.buf.capacity() == self.buf.capacity()
            },
            post.buf@ == mid.buf@ + src.subrange(i, i + took),
            post.ctr == mid.ctr,
            post.version == mid.version,
            post.accepted@ == mid.accepted@ + src.subrange(i, i + took),
            post.buf.capacity() == mid.buf.capacity(),
            post.buf@.len() <= post.buf.capacity(),
        ensures
            post.accepted@.len() == post.ctr * post.cfg_chunk() + post.buf@.len(),
            post.ctr == full_chunks(post.cfg_chunk(), Version::One, post.accepted@.len()),
            post.accepted@.len() > 0 ==> post.buf@.len() > 0,
    {
        let c = self.cfg_chunk();
        if self.buf@.len() < c && mid == self {
            assert(post.accepted@.len() == self.ctr * c + post.buf@.len());
            lemma_fc_one(c, self.ctr as nat, post.buf@.len() as nat);
        } else {
            assert(self.accepted@.len() == self.ctr * c + c);
            assert(post.buf@.len() == took);
            assert((self.ctr + 1) as nat * c + took == self.ctr * c + c + took)
                by (nonlinear_arith);
            assert(post.accepted@.len() == (self.ctr + 1) as nat * c + took);
            lemma_fc_one(c, (self.ctr + 1) as nat, took as nat);
        }
    }

    /// A version-two append preserves the completion equation and leaves
    /// the counter one behind exactly when the buffer filled.
    proof fn lemma_v2_fill(self, post: Self, src: Seq<u8>, i: int, took: int)
        requires
            self.wf(),
            self.version == Version::Two,
            0 <= i,
            i + took <= src.len(),
            post.buf@ == self.buf@ + src.subrange(i, i + took),
            post.sunk() == self.sunk(),
            post.ctr == self.ctr,
            post.key == self.key,
            post.prefix == self.prefix,
            post.ad == self.ad,
            post.version == self.version,
            post.salt == self.salt,
            post.base == self.base,
            post.accepted@ == self.accepted@ + src.subrange(i, i + took),
            post.buf.capacity() == self.buf.capacity(),
            post.buf@.len() <= post.buf.capacity(),
        ensures
            forall|rest: Seq<u8>| #[trigger] post.completes_to(rest),
            post.accepted@.len() == post.ctr * post.cfg_chunk() + post.buf@.len(),
            post.buf@.len() < post.buf.capacity() ==> post.ctr == full_chunks(
                post.cfg_chunk(),
                Version::Two,
                post.accepted@.len(),
            ),
            post.buf@.len() == post.buf.capacity() ==> post.ctr_pre_emit(),
    {
        let s = src.subrange(i, i + took);
        let c = self.cfg_chunk();
        assert forall|rest: Seq<u8>| #[trigger] post.completes_to(rest) by {
            assert(self.completes_to(s + rest));
            assert(self.buf@ + (s + rest) =~= (self.buf@ + s) + rest);
            assert(self.accepted@ + (s + rest) =~= (self.accepted@ + s) + rest);
        }
        assert(self.accepted@.len() == self.ctr * c + self.buf@.len());
        assert(post.accepted@.len() == self.ctr * c + post.buf@.len());
        if post.buf@.len() < c {
            lemma_fc_two(c, self.ctr as nat, post.buf@.len() as nat);
        } else {
            assert(post.buf@.len() == c);
            assert((self.ctr + 1) as nat * c + 0 == self.ctr * c + c) by (nonlinear_arith);
            lemma_fc_two(c, (self.ctr + 1) as nat, 0);
        }
    }

    /// Sealing a just-filled version-two buffer preserves the completion
    /// equation and restores the invariant.
    proof fn lemma_v2_emit(self, post: Self)
        requires
            self.wf_except_full(),
            self.version == Version::Two,
            self.buf@.len() == self.cfg_chunk(),
            self.ctr_pre_emit(),
            post.sunk() == self.sunk() + chunk_bytes(
                self.key@,
                self.prefix@,
                self.ctr,
                false,
                self.ad@,
                self.buf@,
            ),
            post.buf@ == Seq::<u8>::empty(),
            post.ctr == self.ctr + 1,
            post.key == self.key,
            post.prefix == self.prefix,
            post.ad == self.ad,
            post.version == self.version,
            post.salt == self.salt,
            post.base == self.base,
            post.accepted == self.accepted,
            post.buf.capacity() == self.buf.capacity(),
            self.accepted@.len() == self.ctr * self.cfg_chunk() + self.buf@.len(),
        ensures
            forall|rest: Seq<u8>| #[trigger] post.completes_to(rest),
            post.accepted@.len() == post.ctr * post.cfg_chunk() + post.buf@.len(),
            post.ctr == full_chunks(post.cfg_chunk(), Version::Two, post.accepted@.len()),
    {
        assert((self.ctr + 1) as nat * self.cfg_chunk() == self.ctr * self.cfg_chunk()
            + self.cfg_chunk()) by (nonlinear_arith);
        let c = self.cfg_chunk();
        assert forall|rest: Seq<u8>| #[trigger] post.completes_to(rest) by {
            assert(self.completes_to(rest));
            let whole = self.buf@ + rest;
            assert(whole.len() >= c);
            assert(crate::wire::has_full_chunk(Version::Two, c, whole.len()));
            assert(whole.take(c as int) =~= self.buf@);
            assert(whole.skip(c as int) =~= rest);
            assert(body_bytes(self.key@, self.prefix@, self.ad@, c, Version::Two, self.ctr, whole)
                == chunk_bytes(self.key@, self.prefix@, self.ctr, false, self.ad@, self.buf@)
                + body_bytes(
                self.key@,
                self.prefix@,
                self.ad@,
                c,
                Version::Two,
                (self.ctr + 1) as u32,
                rest,
            ));
            assert(post.buf@ + rest =~= rest);
            assert(self.sunk() + (chunk_bytes(
                self.key@,
                self.prefix@,
                self.ctr,
                false,
                self.ad@,
                self.buf@,
            ) + body_bytes(
                self.key@,
                self.prefix@,
                self.ad@,
                c,
                Version::Two,
                post.ctr,
                rest,
            )) =~= post.sunk() + body_bytes(
                self.key@,
                self.prefix@,
                self.ad@,
                c,
                Version::Two,
                post.ctr,
                post.buf@ + rest,
            ));
        }
    }
}

/// The AEAD length bound is monotone: a shorter buffer stays within it.
proof fn lemma_aead_len_monotone(n: nat, c: nat)
    requires
        c >= 1,
        n <= c,
    ensures
        aead_len_ok(c) ==> aead_len_ok(n),
{
    vstd::arithmetic::div_mod::lemma_div_is_ordered(n as int + 63, c as int + 63, 64);
}

/// Returns the size in bytes of a hypothetical stream carrying `n` bytes
/// of plaintext with chunk size `chunk_size` under `opts`.
pub fn size(n: usize, chunk_size: usize, opts: &WriterOpts) -> (r: usize)
    requires
        chunk_size >= 1,
        size_spec(n as nat, chunk_size as nat, opts.version_spec()) <= usize::MAX,
    ensures
        r == size_spec(n as nat, chunk_size as nat, opts.version_spec()),
{
    let fc: usize = match opts.version {
        Version::Two => n / chunk_size,
        Version::One => if n == 0 {
            0
        } else {
            (n - 1) / chunk_size
        },
    };
    proof {
        assert(fc == full_chunks(chunk_size as nat, opts.version_spec(), n as nat));
    }
    HEADER_SIZE + n + (fc + 1) * 16
}

/// Encrypts `pt` in one call: a fresh writer over an in-memory sink, all
/// of `pt`, then the terminal flush. On success the result is exactly the
/// stream of `pt` under the derived key and some fresh salt and nonce
/// prefix, and its length obeys the size formula. When the plaintext
/// fits the 32-bit chunk counter, only a CSPRNG failure is possible.
pub fn encrypt_to_vec(ikm: &[u8], opts: &WriterOpts, chunk_size: usize, pt: &[u8]) -> (r: Result<
    Vec<u8>,
    Error,
>)
    requires
        ikm@.len() == KEY_SIZE,
        chunk_size >= 1,
        aead_len_ok(chunk_size as nat),
    ensures
        r matches Ok(v) ==> exists|salt: Seq<u8>, prefix: Seq<u8>|
            {
                &&& salt.len() == SALT_SIZE
                &&& prefix.len() == PREFIX_SIZE
                &&& v@ == stream_bytes(
                    ikm@,
                    salt,
                    prefix,
                    opts.version_spec(),
                    opts.ad_spec(),
                    opts.info_spec(),
                    chunk_size as nat,
                    pt@,
                )
                &&& v@.len() == size_spec(pt@.len(), chunk_size as nat, opts.version_spec())
            },
        counter_fits(chunk_size as nat, opts.version_spec(), 0, pt@.len()) ==> (r is Ok || (
        r matches Err(e) && e is Rand)),
{
    let sink = VecSink::new();
    let mut w = match Writer::new_with(sink, ikm, opts, chunk_size) {
        Ok(w) => w,
        Err(e) => {
            return Err(e);
        },
    };
    match w.write(pt) {
        Ok(_) => (),
        Err(e) => {
            return Err(e);
        },
    }
    match w.flush() {
        Ok(()) => (),
        Err(e) => {
            return Err(e);
        },
    }
    let ghost salt = w.hdr_salt();
    let ghost prefix = w.hdr_prefix();
    let out = w.into_inner().into_vec();
    proof {
        assert(Seq::<u8>::empty() + pt@ =~= pt@);
        assert(Seq::<u8>::empty() + stream_bytes(
            ikm@,
            salt,
            prefix,
            opts.version_spec(),
            opts.ad_spec(),
            opts.info_spec(),
            chunk_size as nat,
            pt@,
        ) =~= stream_bytes(
            ikm@,
            salt,
            prefix,
            opts.version_spec(),
            opts.ad_spec(),
            opts.info_spec(),
            chunk_size as nat,
            pt@,
        ));
    }
    Ok(out)
}

} // verus!
