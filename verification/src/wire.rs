//! The wire format of an encrypted stream, stated as mathematics.
//!
//! A stream is a header — four big-endian version bytes, a 32-byte salt,
//! and a 19-byte nonce prefix — followed by sealed chunks. Every chunk's
//! nonce is the prefix, a big-endian 32-bit counter, and a final byte that
//! is 1 exactly on the terminal chunk. Under version one a chunk is split
//! off while more than one chunk size of plaintext remains, so the final
//! chunk may be exactly full; under version two it is split off while at
//! least one chunk size remains, so the final chunk is always strictly
//! short, and an aligned plaintext ends in an empty terminal chunk.

use vstd::prelude::*;

use crate::crypto::ct_of;
use crate::crypto::derived_key as crypto_derived_key;
use crate::crypto::NONCE_SIZE;
use crate::crypto::derived_key;
use crate::crypto::tag_of;
use crate::crypto::TAG_SIZE;
use crate::endian::be32;
use crate::version::Version;

verus! {

/// The size of the random salt in the header.
pub const SALT_SIZE: usize = 32;

/// The size of the random nonce prefix in the header.
pub const PREFIX_SIZE: usize = 19;

/// The size of the whole header: version, salt, prefix.
pub const HEADER_SIZE: usize = 55;

/// The nonce of one chunk: prefix, big-endian counter, EOF flag byte.
pub open spec fn nonce_bytes(prefix: Seq<u8>, ctr: u32, eof: bool) -> Seq<u8> {
    prefix + be32(ctr) + seq![
        if eof {
            1u8
        } else {
            0u8
        },
    ]
}

/// The wire bytes of one chunk: the ciphertext of `pt`, then the detached
/// tag over the associated data and that ciphertext.
pub open spec fn chunk_bytes(
    key: Seq<u8>,
    prefix: Seq<u8>,
    ctr: u32,
    eof: bool,
    ad: Seq<u8>,
    pt: Seq<u8>,
) -> Seq<u8> {
    let nonce = nonce_bytes(prefix, ctr, eof);
    let ct = ct_of(key, nonce, pt);
    ct + tag_of(key, nonce, ad, ct)
}

/// Whether a non-final chunk is split off before the rest of a plaintext
/// of length `n` under version `v` with chunk size `c`.
pub open spec fn has_full_chunk(v: Version, c: nat, n: nat) -> bool {
    match v {
        Version::One => n > c,
        Version::Two => n >= c,
    }
}

/// The encrypted body: `pt` chunked and sealed, counting nonces from
/// `ctr`. The terminal chunk carries the EOF flag.
pub open spec fn body_bytes(
    key: Seq<u8>,
    prefix: Seq<u8>,
    ad: Seq<u8>,
    c: nat,
    v: Version,
    ctr: u32,
    pt: Seq<u8>,
) -> Seq<u8>
    recommends
        c >= 1,
    decreases pt.len(),
{
    if c < 1 {
        Seq::empty()
    } else if has_full_chunk(v, c, pt.len()) {
        chunk_bytes(key, prefix, ctr, false, ad, pt.take(c as int)) + body_bytes(
            key,
            prefix,
            ad,
            c,
            v,
            ((ctr + 1) as u32),
            pt.skip(c as int),
        )
    } else {
        chunk_bytes(key, prefix, ctr, true, ad, pt)
    }
}

/// The plaintext chunking that the body mirrors: every element but the
/// last is exactly `c` bytes, and the last is the terminal chunk.
pub open spec fn pt_chunks(c: nat, v: Version, pt: Seq<u8>) -> Seq<Seq<u8>>
    recommends
        c >= 1,
    decreases pt.len(),
{
    if c < 1 {
        Seq::empty()
    } else if has_full_chunk(v, c, pt.len()) {
        seq![pt.take(c as int)] + pt_chunks(c, v, pt.skip(c as int))
    } else {
        seq![pt]
    }
}

/// The number of non-final chunks in a plaintext of length `n`.
pub open spec fn full_chunks(c: nat, v: Version, n: nat) -> nat
    recommends
        c >= 1,
{
    match v {
        Version::Two => n / c,
        Version::One => if n == 0 {
            0
        } else {
            ((n - 1) as nat) / c
        },
    }
}

/// Whether a 32-bit counter starting at `ctr` can serve every non-final
/// chunk of a plaintext of length `n`.
pub open spec fn counter_fits(c: nat, v: Version, ctr: u32, n: nat) -> bool {
    ctr + full_chunks(c, v, n) <= 0xffffffffu32
}

/// The header: version, salt, nonce prefix.
pub open spec fn header_bytes(v: Version, salt: Seq<u8>, prefix: Seq<u8>) -> Seq<u8> {
    be32(v.wire_value()) + salt + prefix
}

/// The complete ciphertext stream of plaintext `pt` under input key
/// material `ikm`, header randomness `salt` and `prefix`, version `v`,
/// associated data `ad`, key-derivation context `info`, and chunk size
/// `c`.
pub open spec fn stream_bytes(
    ikm: Seq<u8>,
    salt: Seq<u8>,
    prefix: Seq<u8>,
    v: Version,
    ad: Seq<u8>,
    info: Seq<u8>,
    c: nat,
    pt: Seq<u8>,
) -> Seq<u8> {
    header_bytes(v, salt, prefix) + body_bytes(
        derived_key(ikm, salt, info),
        prefix,
        ad,
        c,
        v,
        0,
        pt,
    )
}

/// The size of a stream holding `n` bytes of plaintext: the header, the
/// plaintext, and one tag per chunk. There is always exactly one terminal
/// chunk beyond the non-final ones, including for an empty plaintext.
pub open spec fn size_spec(n: nat, c: nat, v: Version) -> nat {
    (HEADER_SIZE + n + (full_chunks(c, v, n) + 1) * TAG_SIZE) as nat
}

/// One chunk's wire length is its plaintext length plus one tag.
pub proof fn lemma_chunk_len(
    key: Seq<u8>,
    prefix: Seq<u8>,
    ctr: u32,
    eof: bool,
    ad: Seq<u8>,
    pt: Seq<u8>,
)
    ensures
        chunk_bytes(key, prefix, ctr, eof, ad, pt).len() == pt.len() + TAG_SIZE,
{
}

/// Splitting one chunk off a plaintext removes one non-final chunk from
/// the count.
pub proof fn lemma_full_chunks_step(c: nat, v: Version, n: nat)
    requires
        c >= 1,
        has_full_chunk(v, c, n),
    ensures
        full_chunks(c, v, n) == 1 + full_chunks(c, v, (n - c) as nat),
{
    match v {
        Version::Two => {
            assert(1 + (n - c) / (c as int) == ((c as int) + (n - c)) / (c as int)) by {
                vstd::arithmetic::div_mod::lemma_div_plus_one(n - c, c as int);
            }
        },
        Version::One => {
            assert(1 + (n - c - 1) / (c as int) == ((c as int) + (n - c - 1)) / (c as int)) by {
                vstd::arithmetic::div_mod::lemma_div_plus_one(n - c - 1, c as int);
            }
            if n - c == 0 {
                assert((n - 1) as int / (c as int) == 0 + (c as int - 1) / (c as int));
                assert((c as int - 1) / (c as int) == 0) by {
                    vstd::arithmetic::div_mod::lemma_basic_div_specific_divisor(c as int);
                }
            }
        },
    }
}

/// The body's wire length: the plaintext plus one tag per chunk.
pub proof fn lemma_body_len(
    key: Seq<u8>,
    prefix: Seq<u8>,
    ad: Seq<u8>,
    c: nat,
    v: Version,
    ctr: u32,
    pt: Seq<u8>,
)
    requires
        c >= 1,
    ensures
        body_bytes(key, prefix, ad, c, v, ctr, pt).len() == pt.len() + (full_chunks(c, v, pt.len())
            + 1) * TAG_SIZE,
    decreases pt.len(),
{
    if has_full_chunk(v, c, pt.len()) {
        lemma_body_len(key, prefix, ad, c, v, ((ctr + 1) as u32), pt.skip(c as int));
        lemma_full_chunks_step(c, v, pt.len());
        lemma_chunk_len(key, prefix, ctr, false, ad, pt.take(c as int));
    } else {
        lemma_chunk_len(key, prefix, ctr, true, ad, pt);
        match v {
            Version::Two => {
                assert(pt.len() / c == 0) by {
                    vstd::arithmetic::div_mod::lemma_basic_div(pt.len() as int, c as int);
                }
            },
            Version::One => {
                if pt.len() != 0 {
                    assert(((pt.len() - 1) as nat) / c == 0) by {
                        vstd::arithmetic::div_mod::lemma_basic_div(pt.len() - 1, c as int);
                    }
                }
            },
        }
    }
}

/// The length formula: a whole stream is the header, the plaintext, and
/// one tag per chunk.
pub proof fn lemma_stream_len(
    ikm: Seq<u8>,
    salt: Seq<u8>,
    prefix: Seq<u8>,
    v: Version,
    ad: Seq<u8>,
    info: Seq<u8>,
    c: nat,
    pt: Seq<u8>,
)
    requires
        c >= 1,
        salt.len() == SALT_SIZE,
        prefix.len() == PREFIX_SIZE,
    ensures
        stream_bytes(ikm, salt, prefix, v, ad, info, c, pt).len() == size_spec(pt.len(), c, v),
{
    lemma_body_len(derived_key(ikm, salt, info), prefix, ad, c, v, 0, pt);
}

/// Every chunk but the last is exactly the chunk size; the last is at
/// most one chunk (version one) or strictly less (version two).
pub proof fn lemma_pt_chunks_shape(c: nat, v: Version, pt: Seq<u8>)
    requires
        c >= 1,
    ensures
        pt_chunks(c, v, pt).len() == full_chunks(c, v, pt.len()) + 1,
        full_chunks(c, v, pt.len()) * c <= pt.len(),
        forall|i: int|
            0 <= i < pt_chunks(c, v, pt).len() - 1 ==> (#[trigger] pt_chunks(c, v, pt)[i]).len()
                == c,
        pt_chunks(c, v, pt).last() == pt.skip(full_chunks(c, v, pt.len()) * c as int),
        v == Version::One ==> pt_chunks(c, v, pt).last().len() <= c,
        v == Version::Two ==> pt_chunks(c, v, pt).last().len() < c,
    decreases pt.len(),
{
    if has_full_chunk(v, c, pt.len()) {
        lemma_pt_chunks_shape(c, v, pt.skip(c as int));
        lemma_full_chunks_step(c, v, pt.len());
        let k = full_chunks(c, v, (pt.len() - c) as nat);
        assert((k + 1) * c as int == k * c as int + c as int) by (nonlinear_arith);
        assert(k * c <= pt.len() - c);
        assert(pt.skip(c as int).skip(k * c as int) =~= pt.skip((k + 1) * c as int));
        assert(full_chunks(c, v, pt.len()) == k + 1);
        assert(full_chunks(c, v, pt.len()) * c as int == (k + 1) * c as int) by (nonlinear_arith)
            requires
                full_chunks(c, v, pt.len()) == k + 1,
        ;
        assert(pt_chunks(c, v, pt).last() == pt_chunks(c, v, pt.skip(c as int)).last());
        assert(pt_chunks(c, v, pt.skip(c as int)).last() == pt.skip(c as int).skip(
            k * c as int,
        ));
        assert(full_chunks(c, v, pt.len()) * c == (k + 1) * c) by (nonlinear_arith)
            requires
                full_chunks(c, v, pt.len()) == k + 1,
        ;
        assert((k + 1) * c == (k + 1) * c as int) by (nonlinear_arith);
        assert(full_chunks(c, v, pt.len()) * c <= pt.len());
        assert(pt_chunks(c, v, pt).last() == pt.skip(full_chunks(c, v, pt.len()) * c as int));
    } else {
        match v {
            Version::Two => {
                assert(pt.len() / c == 0) by {
                    vstd::arithmetic::div_mod::lemma_basic_div(pt.len() as int, c as int);
                }
            },
            Version::One => {
                if pt.len() != 0 {
                    assert(((pt.len() - 1) as nat) / c == 0) by {
                        vstd::arithmetic::div_mod::lemma_basic_div(pt.len() - 1, c as int);
                    }
                }
            },
        }
        assert(pt.skip(0) =~= pt);
    }
}

/// Under version two an aligned plaintext — `n` an exact multiple of the
/// chunk size, including zero — yields `n / c` full chunks and one empty
/// terminal chunk beyond them.
pub proof fn lemma_v2_aligned_chunks(c: nat, pt: Seq<u8>)
    requires
        c >= 1,
        pt.len() % c == 0,
    ensures
        pt_chunks(c, Version::Two, pt).len() == pt.len() / c + 1,
        pt_chunks(c, Version::Two, pt).last() == Seq::<u8>::empty(),
{
    lemma_pt_chunks_shape(c, Version::Two, pt);
    vstd::arithmetic::div_mod::lemma_fundamental_div_mod(pt.len() as int, c as int);
    assert(pt.len() == c as int * (pt.len() as int / c as int));
    assert((pt.len() / c) * c as int == pt.len()) by (nonlinear_arith)
        requires
            pt.len() == c as int * (pt.len() as int / c as int),
    ;
    assert(pt_chunks(c, Version::Two, pt).last() =~= Seq::<u8>::empty());
}

/// Under version one an aligned non-empty plaintext yields `n / c` chunks
/// in all, the last exactly full; an empty plaintext is a single empty
/// terminal chunk.
pub proof fn lemma_v1_aligned_chunks(c: nat, pt: Seq<u8>)
    requires
        c >= 1,
        pt.len() % c == 0,
    ensures
        pt.len() > 0 ==> pt_chunks(c, Version::One, pt).len() == pt.len() / c
            && pt_chunks(c, Version::One, pt).last().len() == c,
        pt.len() == 0 ==> pt_chunks(c, Version::One, pt).len() == 1 && pt_chunks(
            c,
            Version::One,
            pt,
        ).last().len() == 0,
{
    lemma_pt_chunks_shape(c, Version::One, pt);
    if pt.len() > 0 {
        let n = pt.len() as int;
        let q = n / c as int;
        vstd::arithmetic::div_mod::lemma_fundamental_div_mod(n, c as int);
        assert(n == c as int * q);
        assert(q >= 1) by (nonlinear_arith)
            requires
                n == c as int * q,
                n > 0,
                c >= 1,
        ;
        assert((n - 1) / c as int == q - 1) by {
            assert(n - 1 == c as int * (q - 1) + (c as int - 1)) by (nonlinear_arith)
                requires
                    n == c as int * q,
            ;
            vstd::arithmetic::div_mod::lemma_div_multiples_vanish_fancy(
                q - 1,
                c as int - 1,
                c as int,
            );
        }
        assert(full_chunks(c, Version::One, pt.len()) == q - 1);
        assert(pt_chunks(c, Version::One, pt).last().len() == n - (q - 1) * c as int);
        assert(n - (q - 1) * c as int == c as int) by (nonlinear_arith)
            requires
                n == c as int * q,
        ;
    }
}

/// The chunks reassemble to the plaintext: chunking loses nothing and
/// keeps order.
pub proof fn lemma_pt_chunks_concat(c: nat, v: Version, pt: Seq<u8>)
    requires
        c >= 1,
    ensures
        pt_chunks(c, v, pt).flatten() == pt,
    decreases pt.len(),
{
    let s = pt_chunks(c, v, pt);
    if has_full_chunk(v, c, pt.len()) {
        lemma_pt_chunks_concat(c, v, pt.skip(c as int));
        assert(s.first() == pt.take(c as int));
        assert(s.drop_first() =~= pt_chunks(c, v, pt.skip(c as int)));
        assert(s.flatten() =~= pt.take(c as int) + pt.skip(c as int));
        assert(pt.take(c as int) + pt.skip(c as int) =~= pt);
    } else {
        s.lemma_flatten_one_element();
    }
}

/// More plaintext never needs fewer non-final chunks.
pub proof fn lemma_full_chunks_monotonic(c: nat, v: Version, n: nat, m: nat)
    requires
        c >= 1,
        n <= m,
    ensures
        full_chunks(c, v, n) <= full_chunks(c, v, m),
{
    match v {
        Version::Two => {
            vstd::arithmetic::div_mod::lemma_div_is_ordered(n as int, m as int, c as int);
        },
        Version::One => {
            if n != 0 {
                vstd::arithmetic::div_mod::lemma_div_is_ordered(n - 1, m - 1, c as int);
            } else {
                if m != 0 {
                    vstd::arithmetic::div_mod::lemma_div_pos_is_pos(m - 1, c as int);
                }
            }
        },
    }
}

/// Under version two, `k` whole chunks plus a short remainder hold `k`
/// non-final chunks.
pub proof fn lemma_fc_two(c: nat, k: nat, r: nat)
    requires
        c >= 1,
        r < c,
    ensures
        full_chunks(c, Version::Two, k * c + r) == k,
{
    assert((c as int * k as int + r as int) / c as int == k as int) by {
        vstd::arithmetic::div_mod::lemma_div_multiples_vanish_fancy(k as int, r as int, c as int);
    }
    assert(k * c == c as int * k as int) by (nonlinear_arith);
}

/// Under version one, `k` whole chunks plus a non-empty remainder of at
/// most one chunk hold `k` non-final chunks.
pub proof fn lemma_fc_one(c: nat, k: nat, r: nat)
    requires
        c >= 1,
        1 <= r <= c,
    ensures
        full_chunks(c, Version::One, k * c + r) == k,
{
    assert((c as int * k as int + (r - 1)) / c as int == k as int) by {
        vstd::arithmetic::div_mod::lemma_div_multiples_vanish_fancy(k as int, r - 1, c as int);
    }
    assert(k * c == c as int * k as int) by (nonlinear_arith);
}

/// Builds the nonce of one chunk.
pub fn build_nonce(prefix: &[u8], ctr: u32, eof: bool) -> (r: Vec<u8>)
    requires
        prefix@.len() == PREFIX_SIZE,
    ensures
        r@ == nonce_bytes(prefix@, ctr, eof),
        r@.len() == NONCE_SIZE,
{
    let mut r = crate::io::slice_tail(prefix, 0);
    let mut c = crate::endian::put_u32_be(ctr);
    r.append(&mut c);
    r.push(
        if eof {
            1u8
        } else {
            0u8
        },
    );
    proof {
        assert(prefix@.skip(0) =~= prefix@);
        assert(r@ =~= nonce_bytes(prefix@, ctr, eof));
    }
    r
}

/// A version-one stream is unambiguous: wherever its final chunk is
/// exactly one chunk long, the tag sealed under the EOF nonce does not
/// also verify under the continuing nonce for the same counter. A tag is
/// 16 bytes of MAC output over distinct nonces, so a coincidence, while
/// expressible, does not occur in practice; the decoder's one-shot retry
/// relies on this to tell an aligned final chunk from a continuing
/// stream.
pub open spec fn v1_unambiguous(
    key: Seq<u8>,
    prefix: Seq<u8>,
    ad: Seq<u8>,
    c: nat,
    ctr: u32,
    pt: Seq<u8>,
) -> bool
    recommends
        c >= 1,
    decreases pt.len(),
{
    if c < 1 {
        true
    } else if pt.len() > c {
        v1_unambiguous(key, prefix, ad, c, ((ctr + 1) as u32), pt.skip(c as int))
    } else if pt.len() == c {
        let ct = ct_of(key, nonce_bytes(prefix, ctr, true), pt);
        tag_of(key, nonce_bytes(prefix, ctr, false), ad, ct) != tag_of(
            key,
            nonce_bytes(prefix, ctr, true),
            ad,
            ct,
        )
    } else {
        true
    }
}

/// The conditions under which a stream of `pt` decodes back to `pt`: the
/// header randomness has its fixed sizes, the chunk counter suffices, and
/// a version-one stream is unambiguous.
pub open spec fn decodable(
    ikm: Seq<u8>,
    salt: Seq<u8>,
    prefix: Seq<u8>,
    v: Version,
    ad: Seq<u8>,
    info: Seq<u8>,
    c: nat,
    pt: Seq<u8>,
) -> bool {
    &&& salt.len() == SALT_SIZE
    &&& prefix.len() == PREFIX_SIZE
    &&& c >= 1
    &&& counter_fits(c, v, 0, pt.len())
    &&& (v == Version::One ==> v1_unambiguous(derived_key(ikm, salt, info), prefix, ad, c, 0, pt))
}

/// The wire bytes of a sequence of plaintext chunks, sealed in order
/// with counters from `ctr`; the last chunk carries the EOF flag.
pub open spec fn sealed_chunks(
    key: Seq<u8>,
    prefix: Seq<u8>,
    ad: Seq<u8>,
    ctr: u32,
    chunks: Seq<Seq<u8>>,
) -> Seq<u8>
    decreases chunks.len(),
{
    if chunks.len() == 0 {
        Seq::empty()
    } else if chunks.len() == 1 {
        chunk_bytes(key, prefix, ctr, true, ad, chunks[0])
    } else {
        chunk_bytes(key, prefix, ctr, false, ad, chunks[0]) + sealed_chunks(
            key,
            prefix,
            ad,
            ((ctr + 1) as u32),
            chunks.drop_first(),
        )
    }
}

/// The encrypted body is exactly the plaintext's chunks, each sealed in
/// order; with the chunk-shape facts this pins how many chunks a stream
/// carries and how long its final chunk is.
pub proof fn lemma_body_is_sealed_chunks(
    key: Seq<u8>,
    prefix: Seq<u8>,
    ad: Seq<u8>,
    c: nat,
    v: Version,
    ctr: u32,
    pt: Seq<u8>,
)
    requires
        c >= 1,
    ensures
        body_bytes(key, prefix, ad, c, v, ctr, pt) == sealed_chunks(
            key,
            prefix,
            ad,
            ctr,
            pt_chunks(c, v, pt),
        ),
    decreases pt.len(),
{
    let chunks = pt_chunks(c, v, pt);
    if has_full_chunk(v, c, pt.len()) {
        lemma_body_is_sealed_chunks(key, prefix, ad, c, v, ((ctr + 1) as u32), pt.skip(c as int));
        lemma_pt_chunks_shape(c, v, pt.skip(c as int));
        assert(chunks.drop_first() =~= pt_chunks(c, v, pt.skip(c as int)));
        assert(chunks.len() >= 2);
    }
}

} // verus!
