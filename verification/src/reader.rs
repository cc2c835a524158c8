//! The decrypting side of a stream.
//!
//! A reader parses the header at construction, then pulls one ciphertext
//! chunk at a time — a full chunk plus tag, or less at the end of the
//! source — verifies and decrypts it, and hands plaintext out on demand.
//! A short pull marks the terminal chunk. Under version one a stream may
//! end in an exactly-full chunk, which a short pull cannot reveal; when
//! verification under the continuing nonce fails on a full pull, the
//! reader retries once under the EOF nonce and accepts the chunk as
//! terminal if that succeeds. No plaintext is ever delivered from a chunk
//! whose tag did not verify.

use vstd::prelude::*;

use crate::buf::Buf;
use crate::crypto::aead_len_ok;
use crate::crypto::aead_open;
use crate::crypto::ct_of;
use crate::crypto::derived_key;
use crate::crypto::pt_of;
use crate::crypto::tag_of;
use crate::crypto::hkdf_derive;
use crate::crypto::KEY_SIZE;
use crate::crypto::TAG_SIZE;
use crate::endian::be32_val;
use crate::endian::get_u32_be;
use crate::endian::lemma_be32_roundtrip;
use crate::error::Error;
use crate::io::copy_slice_range;
use crate::io::read_exact;
use crate::io::BytesReader;
use crate::io::Read;
use crate::version::Version;
use crate::wire::body_bytes;
use crate::wire::build_nonce;
use crate::wire::chunk_bytes;
use crate::wire::counter_fits;
use crate::wire::decodable;
use crate::wire::full_chunks;
use crate::wire::has_full_chunk;
use crate::wire::header_bytes;
use crate::wire::lemma_chunk_len;
use crate::wire::lemma_full_chunks_step;
use crate::wire::nonce_bytes;
use crate::wire::stream_bytes;
use crate::wire::v1_unambiguous;
use crate::wire::HEADER_SIZE;
use crate::wire::PREFIX_SIZE;
use crate::wire::SALT_SIZE;

verus! {

/// Options for configuring a [`Reader`].
pub struct ReaderOpts {
    ad: Vec<u8>,
    info: Vec<u8>,
}

impl ReaderOpts {
    /// The associated data every chunk must be bound to.
    pub closed spec fn ad_spec(&self) -> Seq<u8> {
        self.ad@
    }

    /// The key-derivation context.
    pub closed spec fn info_spec(&self) -> Seq<u8> {
        self.info@
    }

    /// The default set of options: no associated data, no key-derivation
    /// context.
    pub fn new() -> (r: ReaderOpts)
        ensures
            r.ad_spec() == Seq::<u8>::empty(),
            r.info_spec() == Seq::<u8>::empty(),
    {
        ReaderOpts { ad: Vec::new(), info: Vec::new() }
    }

    /// Sets the additional authenticated data every chunk must be bound
    /// to.
    pub fn with_additional_data(self, ad: Vec<u8>) -> (r: ReaderOpts)
        ensures
            r.ad_spec() == ad@,
            r.info_spec() == self.info_spec(),
    {
        ReaderOpts { ad, ..self }
    }

    /// Sets the HKDF `info` parameter used when deriving the per-stream
    /// key.
    pub fn with_info(self, info: Vec<u8>) -> (r: ReaderOpts)
        ensures
            r.ad_spec() == self.ad_spec(),
            r.info_spec() == info@,
    {
        ReaderOpts { info, ..self }
    }

    /// Builds the options.
    pub fn build(self) -> (r: ReaderOpts)
        ensures
            r.ad_spec() == self.ad_spec(),
            r.info_spec() == self.info_spec(),
    {
        self
    }
}

impl Default for ReaderOpts {
    /// The same options as [`ReaderOpts::new`].
    fn default() -> (r: ReaderOpts)
        ensures
            r.ad_spec() == Seq::<u8>::empty(),
            r.info_spec() == Seq::<u8>::empty(),
    {
        ReaderOpts::new()
    }
}

/// Decrypts a stream, reading ciphertext from a byte source.
pub struct Reader<R> {
    /// The underlying ciphertext source.
    source: R,
    /// The derived per-stream key.
    key: Vec<u8>,
    /// The nonce prefix read from the header.
    prefix: Vec<u8>,
    /// The chunk counter.
    ctr: u32,
    /// The staging buffer: one chunk plus its tag while pulling, the
    /// undelivered plaintext after verifying.
    buf: Buf,
    /// Whether the terminal chunk has been verified.
    eof: bool,
    /// Additional authenticated data.
    ad: Vec<u8>,
    /// The wire version read from the header.
    version: Version,
    /// The chunk size.
    chunk: usize,
    /// The input key material the key was derived from.
    ikm: Ghost<Seq<u8>>,
    /// The salt read from the header.
    salt: Ghost<Seq<u8>>,
    /// The key-derivation context.
    info: Ghost<Seq<u8>>,
}

impl<R: Read> Reader<R> {
    /// The wire version read from the header.
    pub closed spec fn cfg_version(&self) -> Version {
        self.version
    }

    /// The chunk size.
    pub closed spec fn cfg_chunk(&self) -> nat {
        self.chunk as nat
    }

    /// Whether the underlying source is relied on never to fail.
    pub closed spec fn reliable(&self) -> bool {
        self.source.never_fails()
    }

    /// The bytes the underlying source still holds.
    pub closed spec fn source_bytes(&self) -> Seq<u8> {
        self.source.avail()
    }

    /// The reader's invariant.
    pub closed spec fn wf(&self) -> bool {
        &&& self.key@.len() == KEY_SIZE
        &&& self.key@ == derived_key(self.ikm@, self.salt@, self.info@)
        &&& self.salt@.len() == SALT_SIZE
        &&& self.prefix@.len() == PREFIX_SIZE
        &&& self.buf.wf()
        &&& self.chunk >= 1
        &&& self.chunk + TAG_SIZE <= usize::MAX
        &&& self.buf.capacity() == self.chunk + TAG_SIZE
        &&& aead_len_ok(self.buf.capacity())
    }

    /// A bound on the work left: bytes still at the source, bytes still
    /// staged, and the terminal chunk not yet seen.
    pub closed spec fn pending(&self) -> nat {
        self.source.avail().len() + self.buf@.len() + (if self.eof {
            0nat
        } else {
            1nat
        })
    }

    /// The source still holds exactly the remaining chunks of a genuine
    /// stream whose plaintext continues with `tail`, the counter can
    /// number them, and a version-one stream is unambiguous.
    pub closed spec fn tracks(&self, tail: Seq<u8>) -> bool {
        &&& self.reliable()
        &&& self.source.avail() == body_bytes(
            self.key@,
            self.prefix@,
            self.ad@,
            self.cfg_chunk(),
            self.version,
            self.ctr,
            tail,
        )
        &&& counter_fits(self.cfg_chunk(), self.version, self.ctr, tail.len())
        &&& (self.version == Version::One ==> v1_unambiguous(
            self.key@,
            self.prefix@,
            self.ad@,
            self.cfg_chunk(),
            self.ctr,
            tail,
        ))
    }

    /// Sequential reads will deliver exactly `rest`: the undelivered
    /// plaintext staged so far, followed by what the rest of a genuine
    /// stream decrypts to.
    pub closed spec fn yields(&self, rest: Seq<u8>) -> bool {
        &&& self.wf()
        &&& self.reliable()
        &&& if self.eof {
            rest == self.buf@
        } else {
            exists|tail: Seq<u8>| rest == self.buf@ + tail && #[trigger] self.tracks(tail)
        }
    }

    /// Creates a reader with the default options and chunk size.
    pub fn new(source: R, ikm: &[u8]) -> (r: Result<Reader<R>, Error>)
        requires
            ikm@.len() == KEY_SIZE,
        ensures
            r matches Ok(rd) ==> rd.wf(),
            forall|pt: Seq<u8>, salt: Seq<u8>, prefix: Seq<u8>, v: Version|
                decodable(
                    ikm@,
                    salt,
                    prefix,
                    v,
                    Seq::<u8>::empty(),
                    Seq::<u8>::empty(),
                    crate::DEFAULT_CHUNK_SIZE as nat,
                    pt,
                ) && source.never_fails() && source.avail() == #[trigger] stream_bytes(
                    ikm@,
                    salt,
                    prefix,
                    v,
                    Seq::<u8>::empty(),
                    Seq::<u8>::empty(),
                    crate::DEFAULT_CHUNK_SIZE as nat,
                    pt,
                ) ==> (r matches Ok(rd) && rd.yields(pt)),
    {
        Self::new_with(source, ikm, &ReaderOpts::new(), crate::DEFAULT_CHUNK_SIZE)
    }

    /// Creates a reader that parses the stream header from `source` and
    /// then verifies and decrypts chunks of `chunk_size` bytes under the
    /// options' associated data and key-derivation context.
    pub fn new_with(source: R, ikm: &[u8], opts: &ReaderOpts, chunk_size: usize) -> (r: Result<
        Reader<R>,
        Error,
    >)
        requires
            ikm@.len() == KEY_SIZE,
            chunk_size >= 1,
            chunk_size + TAG_SIZE <= usize::MAX,
            aead_len_ok((chunk_size + TAG_SIZE) as nat),
        ensures
            r matches Ok(rd) ==> rd.wf() && rd.cfg_chunk() == chunk_size,
            source.never_fails() && source.avail().len() < 4 ==> r == Err::<Reader<R>, Error>(
                Error::UnexpectedEof(source.avail().len() as usize),
            ),
            source.never_fails() && source.avail().len() >= 4 && be32_val(source.avail().take(4))
                != 1 && be32_val(source.avail().take(4)) != 2 ==> r == Err::<Reader<R>, Error>(
                Error::InvalidVersion(be32_val(source.avail().take(4))),
            ),
            source.never_fails() && 4 <= source.avail().len() < 4 + SALT_SIZE && (be32_val(
                source.avail().take(4),
            ) == 1 || be32_val(source.avail().take(4)) == 2) ==> r == Err::<Reader<R>, Error>(
                Error::UnexpectedEof((source.avail().len() - 4) as usize),
            ),
            source.never_fails() && 4 + SALT_SIZE <= source.avail().len() < HEADER_SIZE && (
            be32_val(source.avail().take(4)) == 1 || be32_val(source.avail().take(4)) == 2) ==> r
                == Err::<Reader<R>, Error>(
                Error::UnexpectedEof((source.avail().len() - 4 - SALT_SIZE) as usize),
            ),
            source.never_fails() && source.avail().len() >= HEADER_SIZE && (be32_val(
                source.avail().take(4),
            ) == 1 || be32_val(source.avail().take(4)) == 2) ==> (r matches Ok(rd) && {
                &&& rd.wf()
                &&& rd.reliable()
                &&& rd.cfg_chunk() == chunk_size
                &&& rd.cfg_version().wire_value() == be32_val(source.avail().take(4))
                &&& rd.source_bytes() == source.avail().skip(HEADER_SIZE as int)
                &&& rd.pending() == rd.source_bytes().len() + 1
            }),
            forall|pt: Seq<u8>, salt: Seq<u8>, prefix: Seq<u8>, v: Version|
                decodable(
                    ikm@,
                    salt,
                    prefix,
                    v,
                    opts.ad_spec(),
                    opts.info_spec(),
                    chunk_size as nat,
                    pt,
                ) && source.never_fails() && source.avail() == #[trigger] stream_bytes(
                    ikm@,
                    salt,
                    prefix,
                    v,
                    opts.ad_spec(),
                    opts.info_spec(),
                    chunk_size as nat,
                    pt,
                ) ==> (r matches Ok(rd) && rd.yields(pt)),
    {
        let mut source = source;
        let ghost avail0 = source.avail();
        let ghost nf0 = source.never_fails();
        let ghost gad = opts.ad@;
        let ghost ginfo = opts.info@;
        let ghost c = chunk_size as nat;
        let vb = match read_exact(&mut source, 4) {
            Ok(v) => v,
            Err(e) => {
                proof {
                    assert forall|pt: Seq<u8>, s: Seq<u8>, p: Seq<u8>, v: Version|
                        decodable(ikm@, s, p, v, gad, ginfo, c, pt) && nf0 && avail0
                            == #[trigger] stream_bytes(ikm@, s, p, v, gad, ginfo, c, pt)
                        implies false by {
                        lemma_genuine_header(ikm@, gad, ginfo, c, pt, s, p, v);
                    }
                }
                return Err(e);
            },
        };
        let vnum = get_u32_be(&vb);
        let version = match Version::try_from(vnum) {
            Ok(v) => v,
            Err(e) => {
                proof {
                    assert forall|pt: Seq<u8>, s: Seq<u8>, p: Seq<u8>, v: Version|
                        decodable(ikm@, s, p, v, gad, ginfo, c, pt) && nf0 && avail0
                            == #[trigger] stream_bytes(ikm@, s, p, v, gad, ginfo, c, pt)
                        implies false by {
                        lemma_genuine_header(ikm@, gad, ginfo, c, pt, s, p, v);
                        assert(vb@ =~= avail0.take(4));
                    }
                }
                return Err(e);
            },
        };
        let salt = match read_exact(&mut source, SALT_SIZE) {
            Ok(v) => v,
            Err(e) => {
                proof {
                    assert forall|pt: Seq<u8>, s: Seq<u8>, p: Seq<u8>, v: Version|
                        decodable(ikm@, s, p, v, gad, ginfo, c, pt) && nf0 && avail0
                            == #[trigger] stream_bytes(ikm@, s, p, v, gad, ginfo, c, pt)
                        implies false by {
                        lemma_genuine_header(ikm@, gad, ginfo, c, pt, s, p, v);
                    }
                }
                return Err(e);
            },
        };
        let prefix = match read_exact(&mut source, PREFIX_SIZE) {
            Ok(v) => v,
            Err(e) => {
                proof {
                    assert forall|pt: Seq<u8>, s: Seq<u8>, p: Seq<u8>, v: Version|
                        decodable(ikm@, s, p, v, gad, ginfo, c, pt) && nf0 && avail0
                            == #[trigger] stream_bytes(ikm@, s, p, v, gad, ginfo, c, pt)
                        implies false by {
                        lemma_genuine_header(ikm@, gad, ginfo, c, pt, s, p, v);
                    }
                }
                return Err(e);
            },
        };
        let key = hkdf_derive(ikm, salt.as_slice(), opts.info.as_slice());
        let rd = Reader {
            source,
            key,
            prefix,
            ctr: 0,
            buf: Buf::new(chunk_size + TAG_SIZE),
            eof: false,
            ad: crate::io::slice_tail(opts.ad.as_slice(), 0),
            version,
            chunk: chunk_size,
            ikm: Ghost(ikm@),
            salt: Ghost(salt@),
            info: Ghost(opts.info@),
        };
        proof {
            assert(opts.ad@.skip(0) =~= opts.ad@);
            assert(rd.source_bytes() =~= avail0.skip(4).skip(SALT_SIZE as int).skip(
                PREFIX_SIZE as int,
            ));
            assert(rd.source_bytes() =~= avail0.skip(HEADER_SIZE as int));
            assert forall|pt: Seq<u8>, s: Seq<u8>, p: Seq<u8>, v: Version|
                decodable(ikm@, s, p, v, gad, ginfo, c, pt) && nf0 && avail0
                    == #[trigger] stream_bytes(ikm@, s, p, v, gad, ginfo, c, pt) implies (
            rd.yields(pt)) by {
                lemma_genuine_header(ikm@, gad, ginfo, c, pt, s, p, v);
                let body = body_bytes(derived_key(ikm@, s, ginfo), p, gad, c, v, 0, pt);
                assert(vb@ =~= avail0.take(4));
                assert(vnum == v.wire_value());
                assert(version == v);
                assert(salt@ =~= avail0.skip(4).take(SALT_SIZE as int));
                assert(salt@ =~= s);
                assert(prefix@ =~= avail0.skip(4).skip(SALT_SIZE as int).take(PREFIX_SIZE as int));
                assert(prefix@ =~= p);
                assert(rd.source.avail() =~= avail0.skip(4).skip(SALT_SIZE as int).skip(
                    PREFIX_SIZE as int,
                ));
                assert(rd.source.avail() =~= body);
                assert(pt =~= rd.buf@ + pt);
                assert(rd.tracks(pt));
            }
        }
        Ok(rd)
    }
}

impl<R: Read> Reader<R> {
    /// How a genuine stream decomposes at its next chunk: either a
    /// non-final chunk of exactly one chunk size, an aligned version-one
    /// final chunk, or a short final chunk.
    proof fn lemma_next_chunk(&self, tail: Seq<u8>)
        requires
            self.wf(),
            self.tracks(tail),
        ensures
            self.source.avail().len() >= TAG_SIZE,
            has_full_chunk(self.cfg_version(), self.cfg_chunk(), tail.len()) ==> {
                &&& self.source.avail().len() >= self.cfg_chunk() + TAG_SIZE
                &&& self.source.avail().take(self.cfg_chunk() as int + TAG_SIZE as int)
                    == chunk_bytes(
                    self.key@,
                    self.prefix@,
                    self.ctr,
                    false,
                    self.ad@,
                    tail.take(self.cfg_chunk() as int),
                )
                &&& self.source.avail().skip(self.cfg_chunk() as int + TAG_SIZE as int)
                    == body_bytes(
                    self.key@,
                    self.prefix@,
                    self.ad@,
                    self.cfg_chunk(),
                    self.cfg_version(),
                    ((self.ctr + 1) as u32),
                    tail.skip(self.cfg_chunk() as int),
                )
                &&& self.ctr < 0xffffffffu32
                &&& counter_fits(
                    self.cfg_chunk(),
                    self.cfg_version(),
                    ((self.ctr + 1) as u32),
                    tail.skip(self.cfg_chunk() as int).len(),
                )
                &&& (self.cfg_version() == Version::One ==> v1_unambiguous(
                    self.key@,
                    self.prefix@,
                    self.ad@,
                    self.cfg_chunk(),
                    ((self.ctr + 1) as u32),
                    tail.skip(self.cfg_chunk() as int),
                ))
            },
            !has_full_chunk(self.cfg_version(), self.cfg_chunk(), tail.len()) ==> {
                &&& self.source.avail().len() == tail.len() + TAG_SIZE
                &&& self.source.avail() == chunk_bytes(
                    self.key@,
                    self.prefix@,
                    self.ctr,
                    true,
                    self.ad@,
                    tail,
                )
                &&& tail.len() <= self.cfg_chunk()
                &&& (self.cfg_version() == Version::Two ==> tail.len() < self.cfg_chunk())
                &&& (tail.len() == self.cfg_chunk() ==> self.cfg_version() == Version::One
                    && tag_of(
                    self.key@,
                    nonce_bytes(self.prefix@, self.ctr, false),
                    self.ad@,
                    ct_of(self.key@, nonce_bytes(self.prefix@, self.ctr, true), tail),
                ) != tag_of(
                    self.key@,
                    nonce_bytes(self.prefix@, self.ctr, true),
                    self.ad@,
                    ct_of(self.key@, nonce_bytes(self.prefix@, self.ctr, true), tail),
                ))
            },
    {
        let c = self.cfg_chunk();
        let v = self.cfg_version();
        let key = self.key@;
        let p = self.prefix@;
        let ad = self.ad@;
        crate::wire::lemma_body_len(key, p, ad, c, v, self.ctr, tail);
        if has_full_chunk(v, c, tail.len()) {
            let head = tail.take(c as int);
            let rest = tail.skip(c as int);
            lemma_chunk_len(key, p, self.ctr, false, ad, head);
            crate::wire::lemma_body_len(key, p, ad, c, v, ((self.ctr + 1) as u32), rest);
            assert(self.source.avail().take(c as int + TAG_SIZE as int) =~= chunk_bytes(
                key,
                p,
                self.ctr,
                false,
                ad,
                head,
            ));
            assert(self.source.avail().skip(c as int + TAG_SIZE as int) =~= body_bytes(
                key,
                p,
                ad,
                c,
                v,
                ((self.ctr + 1) as u32),
                rest,
            ));
            lemma_full_chunks_step(c, v, tail.len());
            assert(full_chunks(c, v, tail.len()) >= 1);
            assert(self.ctr < 0xffffffffu32);
        } else {
            lemma_chunk_len(key, p, self.ctr, true, ad, tail);
            if tail.len() == c {
                assert(v == Version::One);
            }
        }
    }

    /// Pulls one chunk — a full chunk plus tag, or whatever remains —
    /// verifies it, and stages its plaintext. On a genuine stream this
    /// always succeeds and stages the next chunk of the remaining
    /// plaintext.
    fn refill(&mut self) -> (r: Result<(), Error>)
        requires
            old(self).wf(),
            old(self).buf@.len() == 0,
            !old(self).eof,
        ensures
            final(self).wf(),
            final(self).reliable() == old(self).reliable(),
            final(self).cfg_version() == old(self).cfg_version(),
            final(self).cfg_chunk() == old(self).cfg_chunk(),
            r is Ok ==> final(self).pending() < old(self).pending(),
            forall|tail: Seq<u8>| #[trigger] old(self).tracks(tail) ==> {
                &&& r is Ok
                &&& final(self).yields(tail)
                &&& (final(self).buf@.len() == 0 ==> tail.len() == 0)
            },
    {
        let ghost pre = *self;
        let cap = self.chunk + TAG_SIZE;
        self.buf.reset();
        let n = match self.buf.read_from(&mut self.source) {
            Ok(n) => n,
            Err(_) => {
                return Err(Error::Authentication);
            },
        };
        proof {
            assert forall|tail: Seq<u8>| #[trigger] pre.tracks(tail) implies n
                >= TAG_SIZE by {
                pre.lemma_next_chunk(tail);
            }
        }
        if n < TAG_SIZE {
            proof {
                assert forall|tail: Seq<u8>| #[trigger] pre.tracks(tail) implies false by {}
            }
            return Err(Error::Authentication);
        }
        let full = self.buf.is_full();
        let contents = self.buf.remaining_slice();
        let ct = copy_slice_range(contents.as_slice(), 0, n - TAG_SIZE);
        let tag = copy_slice_range(contents.as_slice(), n - TAG_SIZE, TAG_SIZE);
        let eof_first = !full;
        let nonce = build_nonce(self.prefix.as_slice(), self.ctr, eof_first);
        let ghost a = pre.source.avail();
        proof {
            assert(contents@ =~= a.take(n as int));
            vstd::arithmetic::div_mod::lemma_div_is_ordered(
                ct@.len() as int + 63,
                (self.chunk + TAG_SIZE) as int + 63,
                64,
            );
        }
        let first = aead_open(
            self.key.as_slice(),
            nonce.as_slice(),
            self.ad.as_slice(),
            ct,
            tag.as_slice(),
        );
        let ghost g_first = first;
        let (pt, is_eof): (Vec<u8>, bool) = match first {
            Ok(p) => (p, eof_first),
            Err(_) => {
                if self.version == Version::One && full {
                    let nonce2 = build_nonce(self.prefix.as_slice(), self.ctr, true);
                    let ct2 = copy_slice_range(contents.as_slice(), 0, n - TAG_SIZE);
                    let retry = aead_open(
                        self.key.as_slice(),
                        nonce2.as_slice(),
                        self.ad.as_slice(),
                        ct2,
                        tag.as_slice(),
                    );
                    match retry {
                        Ok(p) => (p, true),
                        Err(e) => {
                            proof {
                                assert forall|tail: Seq<u8>| #[trigger] pre.tracks(tail)
                                    implies false by {
                                    pre.lemma_genuine_open(tail, a, n as int, contents@, eof_first, g_first);
                                }
                            }
                            return Err(e);
                        },
                    }
                } else {
                    proof {
                        assert forall|tail: Seq<u8>| #[trigger] pre.tracks(tail)
                            implies false by {
                            pre.lemma_genuine_open(tail, a, n as int, contents@, eof_first, g_first);
                        }
                    }
                    return Err(Error::Authentication);
                }
            },
        };
        self.eof = is_eof;
        if !is_eof {
            if self.ctr == 0xffffffffu32 {
                proof {
                    assert forall|tail: Seq<u8>| #[trigger] pre.tracks(tail) implies false by {
                        pre.lemma_genuine_open(tail, a, n as int, contents@, eof_first, g_first);
                    }
                }
                return Err(Error::CounterOverflow);
            }
            self.ctr = self.ctr + 1;
        }
        self.buf.reset();
        let _ = self.buf.write(pt.as_slice(), 0);
        proof {
            assert(self.buf@ =~= pt@);
            assert forall|tail: Seq<u8>| #[trigger] pre.tracks(tail) implies (self.yields(tail) && (
            self.buf@.len() == 0 ==> tail.len() == 0)) by {
                pre.lemma_genuine_open(tail, a, n as int, contents@, eof_first, g_first);
                let c = pre.cfg_chunk();
                let v = pre.cfg_version();
                if has_full_chunk(v, c, tail.len()) {
                    assert(pt@ == tail.take(c as int));
                    assert(is_eof == false);
                    let rest = tail.skip(c as int);
                    assert(self.source.avail() =~= a.skip(n as int));
                    assert(self.tracks(rest));
                    assert(tail =~= self.buf@ + rest);
                } else {
                    assert(pt@ == tail);
                    assert(is_eof == true);
                    assert(tail == self.buf@);
                }
            }
        }
        Ok(())
    }

    /// Drains decrypted plaintext into the result, refilling one chunk
    /// from the source only when the staged plaintext has run out. At
    /// most `max` bytes come back; an empty result on a non-empty request
    /// means the verified end of the stream was reached. An empty request
    /// returns nothing and leaves the reader untouched.
    pub fn read(&mut self, max: usize) -> (r: Result<Vec<u8>, Error>)
        requires
            old(self).wf(),
        ensures
            final(self).wf(),
            final(self).reliable() == old(self).reliable(),
            max == 0 ==> (r matches Ok(v) && v@.len() == 0) && *final(self) == *old(self),
            r matches Ok(v) ==> final(self).pending() + v@.len() <= old(self).pending(),
            forall|rest: Seq<u8>| #[trigger] old(self).yields(rest) ==> (r matches Ok(v) && {
                &&& v@.len() <= max
                &&& v@.len() <= rest.len()
                &&& v@ == rest.take(v@.len() as int)
                &&& final(self).yields(rest.skip(v@.len() as int))
                &&& (v@.len() == 0 ==> max == 0 || rest.len() == 0)
            }),
    {
        if max == 0 {
            proof {
                assert forall|rest: Seq<u8>| #[trigger] old(self).yields(rest) implies (
                rest.take(0) =~= Seq::<u8>::empty()) && self.yields(rest.skip(0)) by {
                    assert(rest.skip(0) =~= rest);
                }
            }
            return Ok(Vec::new());
        }
        let first = self.buf.read(max);
        if first.len() > 0 {
            proof {
                let k = first@.len() as int;
                assert forall|rest: Seq<u8>| #[trigger] old(self).yields(rest) implies (first@
                    == rest.take(k) && k <= rest.len() && self.yields(rest.skip(k))) by {
                    if old(self).eof {
                        assert(rest == old(self).buf@);
                        assert(first@ =~= rest.take(k));
                        assert(rest.skip(k) =~= self.buf@);
                    } else {
                        let tail = choose|tail: Seq<u8>|
                            rest == old(self).buf@ + tail && #[trigger] old(self).tracks(tail);
                        assert(first@ =~= rest.take(k));
                        assert(rest.skip(k) =~= self.buf@ + tail);
                        assert(self.tracks(tail));
                    }
                }
            }
            return Ok(first);
        }
        if self.eof {
            proof {
                assert forall|rest: Seq<u8>| #[trigger] old(self).yields(rest) implies (rest.len()
                    == 0 && rest.take(0) =~= Seq::<u8>::empty() && self.yields(rest.skip(0))) by {
                    assert(rest.skip(0) =~= rest);
                    assert(rest =~= self.buf@);
                }
            }
            return Ok(Vec::new());
        }
        let ghost mid = *self;
        match self.refill() {
            Ok(()) => (),
            Err(e) => {
                proof {
                    assert forall|rest: Seq<u8>| #[trigger] old(self).yields(rest)
                        implies false by {
                        let tail = choose|tail: Seq<u8>|
                            rest == old(self).buf@ + tail && #[trigger] old(self).tracks(tail);
                        assert(mid.tracks(tail));
                    }
                }
                return Err(e);
            },
        }
        let ghost filled = *self;
        let out = self.buf.read(max);
        proof {
            let k = out@.len() as int;
            assert forall|rest: Seq<u8>| #[trigger] old(self).yields(rest) implies (out@
                == rest.take(k) && k <= rest.len() && self.yields(rest.skip(k)) && (out@.len() == 0
                ==> rest.len() == 0)) by {
                let tail = choose|tail: Seq<u8>|
                    rest == old(self).buf@ + tail && #[trigger] old(self).tracks(tail);
                assert(mid.tracks(tail));
                assert(filled.yields(tail));
                assert(rest =~= tail);
                if filled.eof {
                    assert(tail == filled.buf@);
                    assert(out@ =~= rest.take(k));
                    assert(rest.skip(k) =~= self.buf@);
                } else {
                    let t2 = choose|t2: Seq<u8>|
                        tail == filled.buf@ + t2 && #[trigger] filled.tracks(t2);
                    assert(out@ =~= rest.take(k));
                    assert(rest.skip(k) =~= self.buf@ + t2);
                    assert(self.tracks(t2));
                    if out@.len() == 0 {
                        assert(filled.buf@.len() == 0);
                        assert(tail.len() == 0);
                    }
                }
            }
        }
        Ok(out)
    }

    /// Reads until the verified end of the stream, returning everything
    /// the stream decrypts to.
    pub fn read_to_end(&mut self) -> (r: Result<Vec<u8>, Error>)
        requires
            old(self).wf(),
        ensures
            final(self).wf(),
            forall|rest: Seq<u8>| #[trigger] old(self).yields(rest) ==> (r matches Ok(v) && v@
                == rest),
    {
        let mut acc: Vec<u8> = Vec::new();
        proof {
            assert forall|rest: Seq<u8>| #[trigger] old(self).yields(rest) implies (acc@
                == rest.take(0) && old(self).yields(rest.skip(0))) by {
                assert(rest.take(0) =~= Seq::<u8>::empty());
                assert(rest.skip(0) =~= rest);
            }
        }
        loop
            invariant
                self.wf(),
                forall|rest: Seq<u8>| #[trigger] old(self).yields(rest) ==> {
                    &&& acc@.len() <= rest.len()
                    &&& acc@ == rest.take(acc@.len() as int)
                    &&& self.yields(rest.skip(acc@.len() as int))
                },
            decreases self.pending(),
        {
            let ghost at = *self;
            let ghost acc0 = acc@;
            let part = match self.read(crate::DEFAULT_CHUNK_SIZE) {
                Ok(v) => v,
                Err(e) => {
                    proof {
                        assert forall|rest: Seq<u8>| #[trigger] old(self).yields(rest)
                            implies false by {
                            assert(at.yields(rest.skip(acc0.len() as int)));
                        }
                    }
                    return Err(e);
                },
            };
            if part.len() == 0 {
                proof {
                    assert forall|rest: Seq<u8>| #[trigger] old(self).yields(rest) implies (acc@
                        == rest) by {
                        assert(at.yields(rest.skip(acc0.len() as int)));
                        assert(rest.skip(acc0.len() as int).len() == 0);
                        assert(acc@ =~= rest);
                    }
                }
                return Ok(acc);
            }
            let mut part2 = part;
            acc.append(&mut part2);
            proof {
                let k = acc0.len() as int;
                let m = acc@.len() as int;
                assert forall|rest: Seq<u8>| #[trigger] old(self).yields(rest) implies (acc@.len()
                    <= rest.len() && acc@ == rest.take(m) && self.yields(rest.skip(m))) by {
                    assert(at.yields(rest.skip(k)));
                    assert(acc@ =~= rest.take(m));
                    assert(rest.skip(k).skip(m - k) =~= rest.skip(m));
                }
            }
        }
    }

    /// What the two verification attempts do on a genuine stream's next
    /// chunk, given the bytes the buffer pulled.
    proof fn lemma_genuine_open(
        &self,
        tail: Seq<u8>,
        a: Seq<u8>,
        n: int,
        contents: Seq<u8>,
        eoff: bool,
        g_first: Result<Vec<u8>, Error>,
    )
        requires
            self.wf(),
            self.tracks(tail),
            a == self.source.avail(),
            n == (if self.cfg_chunk() + TAG_SIZE < a.len() {
                (self.cfg_chunk() + TAG_SIZE) as int
            } else {
                a.len() as int
            }),
            TAG_SIZE <= n,
            contents == a.take(n),
            eoff == (n < self.cfg_chunk() + TAG_SIZE),
            // what the first attempt reported, per the AEAD's contract
            g_first is Ok <==> contents.subrange(n - TAG_SIZE as int, n) == tag_of(
                self.key@,
                nonce_bytes(self.prefix@, self.ctr, eoff),
                self.ad@,
                contents.subrange(0, n - TAG_SIZE as int),
            ),
            g_first matches Ok(p) ==> p@ == pt_of(
                self.key@,
                nonce_bytes(self.prefix@, self.ctr, eoff),
                contents.subrange(0, n - TAG_SIZE as int),
            ) && (forall|q: Seq<u8>|
                pt_of(
                    self.key@,
                    nonce_bytes(self.prefix@, self.ctr, eoff),
                    #[trigger] ct_of(
                        self.key@,
                        nonce_bytes(self.prefix@, self.ctr, eoff),
                        q,
                    ),
                ) == q),
        ensures
            has_full_chunk(self.cfg_version(), self.cfg_chunk(), tail.len()) ==> {
                &&& n == self.cfg_chunk() + TAG_SIZE
                &&& (g_first matches Ok(p) && p@ == tail.take(self.cfg_chunk() as int))
                &&& self.ctr < 0xffffffffu32
                &&& a.skip(n) == body_bytes(
                    self.key@,
                    self.prefix@,
                    self.ad@,
                    self.cfg_chunk(),
                    self.cfg_version(),
                    ((self.ctr + 1) as u32),
                    tail.skip(self.cfg_chunk() as int),
                )
                &&& counter_fits(
                    self.cfg_chunk(),
                    self.cfg_version(),
                    ((self.ctr + 1) as u32),
                    tail.skip(self.cfg_chunk() as int).len(),
                )
                &&& (self.cfg_version() == Version::One ==> v1_unambiguous(
                    self.key@,
                    self.prefix@,
                    self.ad@,
                    self.cfg_chunk(),
                    ((self.ctr + 1) as u32),
                    tail.skip(self.cfg_chunk() as int),
                ))
                &&& tail.take(self.cfg_chunk() as int).len() == self.cfg_chunk()
            },
            !has_full_chunk(self.cfg_version(), self.cfg_chunk(), tail.len()) && tail.len()
                < self.cfg_chunk() ==> {
                &&& n == tail.len() + TAG_SIZE
                &&& n < self.cfg_chunk() + TAG_SIZE
                &&& (g_first matches Ok(p) && p@ == tail)
            },
            !has_full_chunk(self.cfg_version(), self.cfg_chunk(), tail.len()) && tail.len()
                == self.cfg_chunk() ==> {
                &&& n == self.cfg_chunk() + TAG_SIZE
                &&& self.cfg_version() == Version::One
                &&& g_first is Err
                &&& contents.subrange(n - TAG_SIZE as int, n) == tag_of(
                    self.key@,
                    nonce_bytes(self.prefix@, self.ctr, true),
                    self.ad@,
                    contents.subrange(0, n - TAG_SIZE as int),
                )
                &&& contents.subrange(0, n - TAG_SIZE as int) == ct_of(
                    self.key@,
                    nonce_bytes(self.prefix@, self.ctr, true),
                    tail,
                )
            },
    {
        let c = self.cfg_chunk();
        let v = self.cfg_version();
        let key = self.key@;
        let p = self.prefix@;
        let ad = self.ad@;
        self.lemma_next_chunk(tail);
        let ctp = contents.subrange(0, n - TAG_SIZE as int);
        let tagp = contents.subrange(n - TAG_SIZE as int, n);
        if has_full_chunk(v, c, tail.len()) {
            let head = tail.take(c as int);
            let nonce = nonce_bytes(p, self.ctr, false);
            lemma_chunk_len(key, p, self.ctr, false, ad, head);
            assert(n == c + TAG_SIZE);
            assert(ctp =~= ct_of(key, nonce, head));
            assert(tagp =~= tag_of(key, nonce, ad, ctp));
            assert(g_first is Ok);
            assert(a.skip(n) == body_bytes(
                key,
                p,
                ad,
                c,
                v,
                ((self.ctr + 1) as u32),
                tail.skip(c as int),
            ));
        } else if tail.len() < c {
            let nonce = nonce_bytes(p, self.ctr, true);
            lemma_chunk_len(key, p, self.ctr, true, ad, tail);
            assert(n == tail.len() + TAG_SIZE);
            assert(ctp =~= ct_of(key, nonce, tail));
            assert(tagp =~= tag_of(key, nonce, ad, ctp));
            assert(g_first is Ok);
        } else {
            let nonce1 = nonce_bytes(p, self.ctr, true);
            let nonce0 = nonce_bytes(p, self.ctr, false);
            lemma_chunk_len(key, p, self.ctr, true, ad, tail);
            assert(n == c + TAG_SIZE);
            assert(ctp =~= ct_of(key, nonce1, tail));
            assert(tagp =~= tag_of(key, nonce1, ad, ctp));
            assert(tag_of(key, nonce0, ad, ctp) != tag_of(key, nonce1, ad, ctp));
            assert(g_first is Err);
        }
    }
}

/// Decrypts a whole in-memory stream in one call: a fresh reader over the
/// bytes, drained to the end. Whenever the input is the genuine stream of
/// some plaintext under the same key material, associated data,
/// key-derivation context, and chunk size, the result is exactly that
/// plaintext.
pub fn decrypt_to_vec(ikm: &[u8], opts: &ReaderOpts, chunk_size: usize, ct: &[u8]) -> (r: Result<
    Vec<u8>,
    Error,
>)
    requires
        ikm@.len() == KEY_SIZE,
        chunk_size >= 1,
        chunk_size + TAG_SIZE <= usize::MAX,
        aead_len_ok((chunk_size + TAG_SIZE) as nat),
    ensures
        forall|pt: Seq<u8>, salt: Seq<u8>, prefix: Seq<u8>, v: Version|
            decodable(ikm@, salt, prefix, v, opts.ad_spec(), opts.info_spec(), chunk_size as nat, pt)
                && ct@ == #[trigger] stream_bytes(
                ikm@,
                salt,
                prefix,
                v,
                opts.ad_spec(),
                opts.info_spec(),
                chunk_size as nat,
                pt,
            ) ==> (r matches Ok(res) && res@ == pt),
{
    let bytes = crate::io::slice_tail(ct, 0);
    proof {
        assert(bytes@ =~= ct@);
    }
    let src = BytesReader::new(bytes);
    let mut rd = match Reader::new_with(src, ikm, opts, chunk_size) {
        Ok(rd) => rd,
        Err(e) => {
            return Err(e);
        },
    };
    rd.read_to_end()
}

/// How a genuine stream decomposes at its header: the version bytes, the
/// salt, the prefix, and the encrypted body.
proof fn lemma_genuine_header(
    ikm: Seq<u8>,
    ad: Seq<u8>,
    info: Seq<u8>,
    c: nat,
    pt: Seq<u8>,
    s: Seq<u8>,
    p: Seq<u8>,
    v: Version,
)
    requires
        decodable(ikm, s, p, v, ad, info, c, pt),
    ensures
        stream_bytes(ikm, s, p, v, ad, info, c, pt).len() >= HEADER_SIZE,
        stream_bytes(ikm, s, p, v, ad, info, c, pt).take(4) == crate::endian::be32(v.wire_value()),
        be32_val(stream_bytes(ikm, s, p, v, ad, info, c, pt).take(4)) == v.wire_value(),
        v.wire_value() == 1 || v.wire_value() == 2,
        stream_bytes(ikm, s, p, v, ad, info, c, pt).skip(4).take(SALT_SIZE as int) == s,
        stream_bytes(ikm, s, p, v, ad, info, c, pt).skip(4).skip(SALT_SIZE as int).take(
            PREFIX_SIZE as int,
        ) == p,
        stream_bytes(ikm, s, p, v, ad, info, c, pt).skip(4).skip(SALT_SIZE as int).skip(
            PREFIX_SIZE as int,
        ) == body_bytes(derived_key(ikm, s, info), p, ad, c, v, 0, pt),
{
    let st = stream_bytes(ikm, s, p, v, ad, info, c, pt);
    let body = body_bytes(derived_key(ikm, s, info), p, ad, c, v, 0, pt);
    assert(header_bytes(v, s, p).len() == HEADER_SIZE);
    assert(st.take(4) =~= crate::endian::be32(v.wire_value()));
    lemma_be32_roundtrip(v.wire_value());
    assert(st.skip(4).take(SALT_SIZE as int) =~= s);
    assert(st.skip(4).skip(SALT_SIZE as int).take(PREFIX_SIZE as int) =~= p);
    assert(st.skip(4).skip(SALT_SIZE as int).skip(PREFIX_SIZE as int) =~= body);
}


} // verus!
