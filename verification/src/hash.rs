//! xxh3-128 hashes of chunks and regions.
use vstd::prelude::*;
use xxhash_rust::xxh3::Xxh3;

use crate::bytes::{be_bytes, push_all};
use crate::text::{digit, push_digit};

verus! {

/// A 128-bit hash as 16 bytes, most significant first.
pub type Hash128 = [u8; 16];

/// The xxh3-128 digest of `data`.
pub uninterp spec fn xxh3_128(data: Seq<u8>) -> u128;

/// `Xxh3::new`, one `Xxh3::update` with all of `data`, and `Xxh3::digest128`: the unseeded
/// 128-bit digest of `data`, which depends on nothing else.
#[verifier::external_body]
fn xxh3_digest(data: &[u8]) -> (d: u128)
    ensures
        d == xxh3_128(data@),
{
    let mut hasher = Xxh3::new();
    hasher.update(data);
    hasher.digest128()
}

/// The hash of a chunk: all zero for an empty one, else its digest.
pub open spec fn chunk_hash(raw: Seq<u8>) -> Seq<u8> {
    if raw.len() == 0 {
        Seq::new(16, |i: int| 0u8)
    } else {
        be_bytes(xxh3_128(raw) as int, 16)
    }
}

/// The hashes one after the other.
pub open spec fn joined(hashes: Seq<Hash128>) -> Seq<u8>
    decreases hashes.len(),
{
    if hashes.len() == 0 {
        Seq::empty()
    } else {
        joined(hashes.drop_last()) + hashes.last()@
    }
}

/// The hash of a region: the digest of its chunk hashes in order.
pub open spec fn region_hash(hashes: Seq<Hash128>) -> Seq<u8> {
    be_bytes(xxh3_128(joined(hashes)) as int, 16)
}

/// Two hashes are the same bytes.
pub fn same_hash(a: &Hash128, b: &Hash128) -> (r: bool)
    ensures
        r == (*a == *b),
{
    let mut i: usize = 0;
    while i < 16
        invariant
            i <= 16,
            forall|j: int| 0 <= j < i ==> a@[j] == b@[j],
        decreases 16 - i,
    {
        if a[i] != b[i] {
            return false;
        }
        i += 1;
    }
    assert(*a =~= *b);
    true
}

/// Computes the xxh3-128 hash of a chunk's bytes. An empty chunk hashes to all zeros.
pub fn hash_chunk(raw_chunk: &[u8]) -> (r: Hash128)
    ensures
        r@ == chunk_hash(raw_chunk@),
{
    if raw_chunk.is_empty() {
        let zero: Hash128 = [0u8; 16];
        assert(zero@ =~= chunk_hash(raw_chunk@));
        return zero;
    }
    u128_to_be_bytes(xxh3_digest(raw_chunk))
}

/// Computes the hash of a region from its chunk hashes, joined in the given order.
pub fn hash_region_from_chunk_hashes(chunk_hashes: &[Hash128]) -> (r: Hash128)
    ensures
        r@ == region_hash(chunk_hashes@),
{
    let mut all: Vec<u8> = Vec::new();
    let mut i: usize = 0;
    assert(chunk_hashes@.take(0) =~= Seq::<Hash128>::empty());
    while i < chunk_hashes.len()
        invariant
            i <= chunk_hashes@.len(),
            all@ == joined(chunk_hashes@.take(i as int)),
        decreases chunk_hashes@.len() - i,
    {
        push_all(&mut all, &chunk_hashes[i]);
        i += 1;
        assert(chunk_hashes@.take(i as int).drop_last() =~= chunk_hashes@.take(i - 1));
    }
    assert(chunk_hashes@.take(i as int) =~= chunk_hashes@);
    u128_to_be_bytes(xxh3_digest(all.as_slice()))
}

/// The 16 bytes of `v`, most significant first.
pub fn u128_to_be_bytes(v: u128) -> (r: Hash128)
    ensures
        r@ == be_bytes(v as int, 16),
{
    let mut out: Hash128 = [0u8; 16];
    let mut rest: u128 = v;
    let mut i: usize = 16;
    assert(out@.skip(16) =~= Seq::<u8>::empty());
    while i > 0
        invariant
            i <= 16,
            be_bytes(v as int, 16) == be_bytes(rest as int, i as nat) + out@.skip(i as int),
        decreases i,
    {
        i -= 1;
        let ghost before = out@;
        out[i] = (rest % 256) as u8;
        assert(be_bytes(rest as int, (i + 1) as nat) + before.skip(i + 1) =~= be_bytes(
            rest as int / 256,
            i as nat,
        ) + out@.skip(i as int));
        rest = rest / 256;
    }
    assert(out@.skip(0) =~= out@);
    assert(be_bytes(rest as int, 0) + out@ =~= out@);
    out
}

/// A region's digest sees every chunk hash: different hashes are joined to different bytes.
pub proof fn joined_is_injective(a: Seq<Hash128>, b: Seq<Hash128>)
    requires
        joined(a) == joined(b),
    ensures
        a == b,
    decreases a.len(),
{
    joined_len(a);
    joined_len(b);
    if a.len() == 0 {
        assert(a =~= b);
    } else {
        let n = joined(a).len() - 16;
        let x = joined(a.drop_last());
        let y = joined(b.drop_last());
        joined_len(a.drop_last());
        joined_len(b.drop_last());
        assert(joined(a).take(n) =~= x);
        assert(joined(b).take(n) =~= y);
        joined_is_injective(a.drop_last(), b.drop_last());
        assert(joined(a).skip(n) =~= a.last()@);
        assert(joined(b).skip(n) =~= b.last()@);
        assert(a.last() =~= b.last());
        assert(a =~= a.drop_last().push(a.last()));
        assert(b =~= b.drop_last().push(b.last()));
    }
}

pub(crate) proof fn joined_len(a: Seq<Hash128>)
    ensures
        joined(a).len() == 16 * a.len(),
    decreases a.len(),
{
    if a.len() > 0 {
        joined_len(a.drop_last());
    }
}

/// The hash with these bytes, of which there are 16.
pub open spec fn as_hash(bytes: Seq<u8>) -> Hash128 {
    choose|h: Hash128| h@ == bytes
}

/// A hash is the one with its bytes.
pub proof fn as_hash_of(h: Hash128)
    ensures
        as_hash(h@) == h,
{
    let k = as_hash(h@);
    assert(k@ == h@);
    assert(k =~= h);
}

/// A hash in hexadecimal: two digits for each byte.
pub open spec fn hex(h: Seq<u8>) -> Seq<char> {
    Seq::new(2 * h.len(), |i: int| digit(if i % 2 == 0 {
        h[i / 2] as int / 16
    } else {
        h[i / 2] as int % 16
    }))
}

/// Writes a hash in lower-case hexadecimal.
pub fn hash_to_hex(h: &Hash128) -> (r: String)
    ensures
        r@ == hex(h@),
{
    let mut s = String::new();
    let mut i: usize = 0;
    assert(s@ =~= Seq::empty());
    while i < 16
        invariant
            i <= 16,
            s@ == hex(h@).take(2 * i),
        decreases 16 - i,
    {
        push_digit(&mut s, h[i] / 16);
        push_digit(&mut s, h[i] % 16);
        i += 1;
        assert(s@ =~= hex(h@).take(2 * i));
    }
    assert(s@ =~= hex(h@));
    s
}

} // verus!
