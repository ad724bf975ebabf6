//! Laws of numbers in bytes, and of the order in which slots are read.
use vstd::prelude::*;

use crate::archive::{gathered, Fault};
use crate::bytes::{be_bytes, be_bytes_len, be_value, pow256, signed32};

verus! {

/// Two bytes of `d` from `p` on as a number, the most significant first.
pub open spec fn two(d: Seq<u8>, p: int) -> int {
    d[p] * 0x100 + d[p + 1]
}

/// Three bytes of `d` from `p` on as a number, the most significant first.
pub open spec fn three(d: Seq<u8>, p: int) -> int {
    d[p] * 0x1_0000 + d[p + 1] * 0x100 + d[p + 2]
}

/// Four bytes of `d` from `p` on as a number, the most significant first.
pub open spec fn four(d: Seq<u8>, p: int) -> int {
    d[p] * 0x100_0000 + d[p + 1] * 0x1_0000 + d[p + 2] * 0x100 + d[p + 3]
}

/// Numbers of up to four bytes are the sums of their bytes, each by its weight.
pub proof fn value_is_the_weighted_sum(d: Seq<u8>, p: int)
    requires
        0 <= p,
    ensures
        p + 2 <= d.len() ==> be_value(d.subrange(p, p + 2)) == two(d, p),
        p + 3 <= d.len() ==> be_value(d.subrange(p, p + 3)) == three(d, p),
        p + 4 <= d.len() ==> be_value(d.subrange(p, p + 4)) == four(d, p),
{
    reveal_with_fuel(be_value, 5);
    if p + 2 <= d.len() {
        let b = d.subrange(p, p + 2);
        assert(b.drop_last().drop_last() =~= Seq::empty());
    }
    if p + 3 <= d.len() {
        let b = d.subrange(p, p + 3);
        assert(b.drop_last().drop_last().drop_last() =~= Seq::empty());
    }
    if p + 4 <= d.len() {
        let b = d.subrange(p, p + 4);
        assert(b.drop_last().drop_last().drop_last().drop_last() =~= Seq::empty());
    }
}

/// One more byte behind a number makes it 256 times as much, and adds the byte.
pub proof fn byte_behind_a_number(b: Seq<u8>, x: u8)
    ensures
        be_value(Seq::empty()) == 0,
        be_value(b.push(x)) == be_value(b) * 256 + x,
{
    assert(b.push(x).drop_last() =~= b);
}

/// Reading back what was written: `n` bytes, whose number is what is left of `v` on division by
/// 256 to the `n`-th.
pub proof fn written_number_reads_back(v: int, n: nat)
    ensures
        be_bytes(v, n).len() == n,
        be_value(be_bytes(v, n)) == v % (pow256(n) as int),
        pow256(1) == 0x100,
        pow256(2) == 0x1_0000,
        pow256(4) == 0x1_0000_0000,
        pow256(8) == 0x1_0000_0000_0000_0000,
        pow256(16) == 0x1_0000_0000_0000_0000_0000_0000_0000_0000,
        n == 0 ==> be_value(be_bytes(v, n)) == 0,
    decreases n,
{
    be_bytes_len(v, n);
    reveal_with_fuel(pow256, 17);
    assert(pow256(8) == 0x1_0000_0000_0000_0000);
    if n > 0 {
        let m = (n - 1) as nat;
        written_number_reads_back(v / 256, m);
        byte_behind_a_number(be_bytes(v / 256, m), (v % 256) as u8);
        let p = pow256(m) as int;
        pow256_positive(m);
        assert((v / 256) % p * 256 + v % 256 == v % (256 * p)) by (nonlinear_arith)
            requires
                p > 0,
        {
            let q = (v / 256) / p;
            let r = (v / 256) % p;
            assert(v / 256 == q * p + r && 0 <= r < p);
            assert(v == (v / 256) * 256 + v % 256);
            let s = r * 256 + v % 256;
            assert(v == q * (256 * p) + s);
            assert(0 <= s < 256 * p);
            vstd::arithmetic::div_mod::lemma_fundamental_div_mod_converse(v, 256 * p, q, s);
        }
    }
}

proof fn pow256_positive(n: nat)
    ensures
        pow256(n) > 0,
    decreases n,
{
    if n > 0 {
        pow256_positive((n - 1) as nat);
    }
}

/// A number that fits in `n` bytes comes back as it was, and so does a signed one of 32 bits.
pub proof fn fitting_number_reads_back(v: int)
    ensures
        0 <= v < 0x100 ==> be_value(be_bytes(v, 1)) == v,
        0 <= v < 0x1_0000 ==> be_value(be_bytes(v, 2)) == v,
        0 <= v < 0x1_0000_0000 ==> be_value(be_bytes(v, 4)) == v,
        0 <= v < 0x1_0000_0000_0000_0000 ==> be_value(be_bytes(v, 8)) == v,
        0 <= v < 0x1_0000_0000_0000_0000_0000_0000_0000_0000 ==> be_value(be_bytes(v, 16)) == v,
        -0x8000_0000 <= v < 0x8000_0000 ==> signed32(be_value(be_bytes(v, 4)) as int) == v,
{
    written_number_reads_back(v, 1);
    written_number_reads_back(v, 2);
    written_number_reads_back(v, 4);
    written_number_reads_back(v, 8);
    written_number_reads_back(v, 16);
}

/// The bytes of the widths that are written, one by one: the most significant comes first.
pub proof fn bytes_by_place(v: int)
    ensures
        be_bytes(v, 1) == seq![(v % 0x100) as u8],
        be_bytes(v, 2) == seq![(v / 0x100 % 0x100) as u8, (v % 0x100) as u8],
        be_bytes(v, 4) == seq![
            (v / 0x100_0000 % 0x100) as u8,
            (v / 0x1_0000 % 0x100) as u8,
            (v / 0x100 % 0x100) as u8,
            (v % 0x100) as u8,
        ],
        be_bytes(v, 8) == be_bytes(v / 0x1_0000_0000, 4) + be_bytes(v, 4),
{
    reveal_with_fuel(be_bytes, 9);
    assert(v / 256 / 256 == v / 0x1_0000);
    assert(v / 256 / 256 / 256 == v / 0x100_0000);
    assert(v / 256 / 256 / 256 / 256 == v / 0x1_0000_0000);
    assert(be_bytes(v, 1) =~= seq![(v % 0x100) as u8]);
    assert(be_bytes(v, 2) =~= seq![(v / 0x100 % 0x100) as u8, (v % 0x100) as u8]);
    assert(be_bytes(v, 4) =~= seq![
        (v / 0x100_0000 % 0x100) as u8,
        (v / 0x1_0000 % 0x100) as u8,
        (v / 0x100 % 0x100) as u8,
        (v % 0x100) as u8,
    ]);
    let w = v / 0x1_0000_0000;
    assert(be_bytes(w, 4) =~= be_bytes(v / 256 / 256 / 256 / 256, 4));
    assert(be_bytes(v, 8) =~= be_bytes(w, 4) + be_bytes(v, 4));
}

/// All slots are read, and each result stands at its slot.
pub proof fn all_slots_are_gathered<T>(slot: spec_fn(int) -> Result<T, Fault>, n: nat)
    requires
        forall|i: int| 0 <= i < n ==> #[trigger] slot(i) is Ok,
    ensures
        gathered(slot, n) matches Ok(all) && all.len() == n && forall|i: int|
            0 <= i < n ==> #[trigger] all[i] == slot(i)->Ok_0,
    decreases n,
{
    if n > 0 {
        all_slots_are_gathered(slot, (n - 1) as nat);
        assert(slot(n - 1) is Ok);
    }
}

/// What is gathered is what each slot gave.
pub proof fn gathered_slots_are_right<T>(slot: spec_fn(int) -> Result<T, Fault>, n: nat, i: int)
    requires
        gathered(slot, n) is Ok,
        0 <= i < n,
    ensures
        gathered(slot, n)->Ok_0.len() == n,
        slot(i) == Ok::<T, Fault>(gathered(slot, n)->Ok_0[i]),
    decreases n,
{
    if i < n - 1 {
        gathered_slots_are_right(slot, (n - 1) as nat, i);
    } else {
        crate::archive::gathered_len(slot, n);
        crate::archive::gathered_len(slot, (n - 1) as nat);
    }
}

/// The first slot that fails gives its fault.
pub proof fn first_fault_is_given<T>(slot: spec_fn(int) -> Result<T, Fault>, n: nat, k: nat)
    requires
        k < n,
        forall|i: int| 0 <= i < k ==> #[trigger] slot(i) is Ok,
        slot(k as int) is Err,
    ensures
        gathered(slot, n) == Err::<Seq<T>, Fault>(slot(k as int)->Err_0),
    decreases n,
{
    if k == n - 1 {
        all_slots_are_gathered(slot, k);
    } else {
        first_fault_is_given(slot, (n - 1) as nat, k);
    }
}

} // verus!
