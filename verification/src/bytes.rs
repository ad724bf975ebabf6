//! Big-endian integers in byte strings.
use vstd::prelude::*;

verus! {

/// The low `n` bytes of `v` in two's complement, most significant first.
pub open spec fn be_bytes(v: int, n: nat) -> Seq<u8>
    decreases n,
{
    if n == 0 {
        Seq::empty()
    } else {
        be_bytes(v / 256, (n - 1) as nat).push((v % 256) as u8)
    }
}

/// The unsigned number that `b` spells, most significant byte first.
pub open spec fn be_value(b: Seq<u8>) -> nat
    decreases b.len(),
{
    if b.len() == 0 {
        0
    } else {
        be_value(b.drop_last()) * 256 + b.last() as nat
    }
}

/// The signed number whose 32-bit two's complement is `v`.
pub open spec fn signed32(v: int) -> int {
    if v < 0x8000_0000 {
        v
    } else {
        v - 0x1_0000_0000
    }
}

pub open spec fn pow256(n: nat) -> nat
    decreases n,
{
    if n == 0 {
        1
    } else {
        256 * pow256((n - 1) as nat)
    }
}

/// `n` bytes come out.
pub proof fn be_bytes_len(v: int, n: nat)
    ensures
        be_bytes(v, n).len() == n,
    decreases n,
{
    if n > 0 {
        be_bytes_len(v / 256, (n - 1) as nat);
    }
}

/// A number of `n` bytes is below 256 to the `n`-th.
pub proof fn be_value_bound(b: Seq<u8>)
    ensures
        be_value(b) < pow256(b.len()),
    decreases b.len(),
{
    if b.len() > 0 {
        be_value_bound(b.drop_last());
    }
}

/// Two numbers with the same low `n` bytes agree, where they lie less than 256 to the `n`-th
/// apart.
pub proof fn be_bytes_injective(v: int, w: int, n: nat)
    requires
        -pow256(n) < v - w < pow256(n),
        be_bytes(v, n) == be_bytes(w, n),
    ensures
        v == w,
    decreases n,
{
    if n > 0 {
        let m = (n - 1) as nat;
        let a = be_bytes(v / 256, m);
        let b = be_bytes(w / 256, m);
        let x = (v % 256) as u8;
        let y = (w % 256) as u8;
        assert(a.push(x) == b.push(y));
        assert(a.push(x).last() == x && b.push(y).last() == y);
        assert(a.push(x).drop_last() =~= a);
        assert(b.push(y).drop_last() =~= b);
        assert(v % 256 == w % 256);
        be_bytes_injective(v / 256, w / 256, m);
    }
}

/// Appends the low `n` bytes of `v`, most significant first.
pub fn push_be_unsigned(buf: &mut Vec<u8>, v: u64, n: usize)
    ensures
        final(buf)@ == old(buf)@ + be_bytes(v as int, n as nat),
    decreases n,
{
    if n > 0 {
        let ghost start = buf@;
        push_be_unsigned(buf, v / 256, n - 1);
        buf.push((v % 256) as u8);
        assert(buf@ =~= start + be_bytes(v as int, n as nat));
    } else {
        assert(buf@ =~= old(buf)@ + be_bytes(v as int, 0));
    }
}

/// Appends the low `n` bytes of `v` in two's complement, most significant first.
pub fn push_be_signed(buf: &mut Vec<u8>, v: i64, n: usize)
    ensures
        final(buf)@ == old(buf)@ + be_bytes(v as int, n as nat),
    decreases n,
{
    if n > 0 {
        let ghost start = buf@;
        assert(v >> 8 == v / 256) by (bit_vector);
        let low: i64 = v & 0xff;
        assert(low == v % 256 && 0 <= low < 256) by (bit_vector)
            requires
                low == v & 0xff,
        ;
        push_be_signed(buf, v >> 8, n - 1);
        buf.push(low as u8);
        assert(buf@ =~= start + be_bytes(v as int, n as nat));
    } else {
        assert(buf@ =~= old(buf)@ + be_bytes(v as int, 0));
    }
}

/// Appends all of `more`.
pub fn push_all(buf: &mut Vec<u8>, more: &[u8])
    ensures
        final(buf)@ == old(buf)@ + more@,
{
    let ghost start = buf@;
    let mut i: usize = 0;
    while i < more.len()
        invariant
            i <= more@.len(),
            buf@ == start + more@.take(i as int),
        decreases more@.len() - i,
    {
        buf.push(more[i]);
        i += 1;
    }
    assert(more@.take(i as int) =~= more@);
}

/// A copy of `n` bytes of `data` from `pos` on.
pub fn copy_range(data: &[u8], pos: usize, n: usize) -> (r: Vec<u8>)
    requires
        pos + n <= data@.len(),
    ensures
        r@ == data@.subrange(pos as int, pos + n),
{
    let end: usize = data.len();
    let mut out: Vec<u8> = Vec::with_capacity(n);
    let mut i: usize = 0;
    while i < n
        invariant
            i <= n,
            pos + n <= data@.len() == end,
            out@ == data@.subrange(pos as int, pos + i),
        decreases n - i,
    {
        out.push(data[pos + i]);
        i += 1;
    }
    out
}

/// The big-endian number in the `n` bytes of `data` from `pos` on.
pub fn read_be(data: &[u8], pos: usize, n: usize) -> (r: u64)
    requires
        pos + n <= data@.len(),
        n <= 8,
    ensures
        r == be_value(data@.subrange(pos as int, pos + n)),
        r < pow256(n as nat),
{
    let end: usize = data.len();
    let mut v: u64 = 0;
    let mut i: usize = 0;
    while i < n
        invariant
            i <= n <= 8,
            pos + n <= data@.len() == end,
            v == be_value(data@.subrange(pos as int, pos + i)),
        decreases n - i,
    {
        let ghost sofar = data@.subrange(pos as int, pos + i);
        proof {
            reveal_with_fuel(pow256, 9);
            be_value_bound(sofar);
            assert(data@.subrange(pos as int, pos + i + 1).drop_last() =~= sofar);
        }
        v = v * 256 + data[pos + i] as u64;
        i += 1;
    }
    proof {
        be_value_bound(data@.subrange(pos as int, pos + n));
    }
    v
}

} // verus!
