//! Laws of file types, of the choice of files, and of numbers in names and in text.
use vstd::prelude::*;

use crate::anvil::external_file;
use crate::hash::hex;
use crate::text::{decimal, decimal_digits, digit};
use crate::util::{
    digits_value, dot_parts, fault_stays, file_type, int_value, matching, name_coords, region_files, DirEntry, FileType,
    NameFault, TypeFault, B_LINEAR_V3_MAGIC, LINEAR_V2_MAGIC,
};
use crate::util_laws::{digits_are_digits, no_dots_in, plain_text_extends};

verus! {

// ---- file types ----

/// The first eight bytes of `d`.
pub open spec fn begins(d: Seq<u8>, a: u8, b: u8, c: u8, e: u8, f: u8, g: u8, h: u8, i: u8) -> bool {
    &&& d.len() >= 8
    &&& d[0] == a && d[1] == b && d[2] == c && d[3] == e
    &&& d[4] == f && d[5] == g && d[6] == h && d[7] == i
}

/// A file type is told by the first eight bytes and the version byte behind them; what begins
/// otherwise is anvil, and so is what is shorter.
pub proof fn type_is_told_by_the_first_bytes(d: Seq<u8>)
    ensures
        ({
            let b_linear = begins(d, 0xFF, 0xFF, 0xDF, 0xF7, 0xED, 0xDA, 0xFD, 0x97);
            let linear = begins(d, 0xC3, 0xFF, 0x13, 0x18, 0x3C, 0xCA, 0x9D, 0x9A);
            &&& file_type(d) == Ok::<FileType, TypeFault>(FileType::Anvil) <==> !b_linear && !linear
            &&& file_type(d) == Ok::<FileType, TypeFault>(FileType::BLinearV3) <==> b_linear && d.len() > 8 && d[8]
                == 3
            &&& file_type(d) == Ok::<FileType, TypeFault>(FileType::LinearV2) <==> linear && d.len() > 8 && d[8]
                == 3
            &&& file_type(d) == Ok::<FileType, TypeFault>(FileType::LinearV1) <==> linear && d.len() > 8 && (d[8]
                == 1 || d[8] == 2)
            &&& file_type(d) == Err::<FileType, TypeFault>(TypeFault::Truncated) <==> (b_linear || linear)
                && d.len() == 8
            &&& file_type(d) == Err::<FileType, TypeFault>(TypeFault::BLinearVersion) <==> b_linear && d.len() > 8
                && d[8] != 3
            &&& file_type(d) == Err::<FileType, TypeFault>(TypeFault::LinearVersion) <==> linear && d.len() > 8
                && d[8] != 1 && d[8] != 2 && d[8] != 3
        }),
{
    if d.len() >= 8 {
        let head = d.take(8);
        let b_linear = begins(d, 0xFF, 0xFF, 0xDF, 0xF7, 0xED, 0xDA, 0xFD, 0x97);
        let linear = begins(d, 0xC3, 0xFF, 0x13, 0x18, 0x3C, 0xCA, 0x9D, 0x9A);
        if b_linear {
            assert(head =~= B_LINEAR_V3_MAGIC@);
        } else {
            assert(head != B_LINEAR_V3_MAGIC@) by {
                if head == B_LINEAR_V3_MAGIC@ {
                    assert(forall|i: int| 0 <= i < 8 ==> head[i] == d[i]);
                    assert(head[0] == 0xFF && head[1] == 0xFF && head[2] == 0xDF && head[3] == 0xF7 && head[4]
                        == 0xED && head[5] == 0xDA && head[6] == 0xFD && head[7] == 0x97);
                }
            }
        }
        if linear {
            assert(head =~= LINEAR_V2_MAGIC@);
        } else {
            assert(head != LINEAR_V2_MAGIC@) by {
                if head == LINEAR_V2_MAGIC@ {
                    assert(forall|i: int| 0 <= i < 8 ==> head[i] == d[i]);
                    assert(head[0] == 0xC3 && head[1] == 0xFF && head[2] == 0x13 && head[3] == 0x18 && head[4]
                        == 0x3C && head[5] == 0xCA && head[6] == 0x9D && head[7] == 0x9A);
                }
            }
        }
    }
}

// ---- the choice of files ----

/// An entry is chosen exactly where it is a file, lies no deeper than asked, and has the
/// extension; the choice keeps the order of the listing.
pub proof fn files_are_chosen_in_order(entries: Seq<DirEntry>, suffix: Seq<char>, max_depth: int, i: usize)
    requires
        entries.len() <= usize::MAX,
    ensures
        matching(entries, suffix, max_depth).contains(i) <==> i < entries.len() && entries[i as int].is_file
            && entries[i as int].depth <= max_depth && entries[i as int].extension is Some
            && entries[i as int].extension->Some_0@ == suffix,
        forall|a: int, b: int|
            0 <= a < b < matching(entries, suffix, max_depth).len() ==> #[trigger] matching(
                entries,
                suffix,
                max_depth,
            )[a] < #[trigger] matching(entries, suffix, max_depth)[b],
{
    chosen(entries, suffix, max_depth, i);
}

proof fn chosen(entries: Seq<DirEntry>, suffix: Seq<char>, max_depth: int, i: usize)
    requires
        entries.len() <= usize::MAX,
    ensures
        matching(entries, suffix, max_depth).contains(i) <==> i < entries.len() && entries[i as int].is_file
            && entries[i as int].depth <= max_depth && entries[i as int].extension is Some
            && entries[i as int].extension->Some_0@ == suffix,
        forall|a: int| 0 <= a < matching(entries, suffix, max_depth).len() ==> #[trigger] matching(
            entries,
            suffix,
            max_depth,
        )[a] < entries.len(),
        forall|a: int, b: int|
            0 <= a < b < matching(entries, suffix, max_depth).len() ==> #[trigger] matching(
                entries,
                suffix,
                max_depth,
            )[a] < #[trigger] matching(entries, suffix, max_depth)[b],
    decreases entries.len(),
{
    if entries.len() > 0 {
        let rest = entries.drop_last();
        chosen(rest, suffix, max_depth, i);
        let before = matching(rest, suffix, max_depth);
        let all = matching(entries, suffix, max_depth);
        if all.len() > before.len() {
            assert(all.last() == entries.len() - 1);
            if before.contains(i) {
                let j = choose|j: int| 0 <= j < before.len() && before[j] == i;
                assert(all[j] == i);
            }
            if i == entries.len() - 1 {
                assert(all[before.len() as int] == i);
            }
            if all.contains(i) {
                let j = choose|j: int| 0 <= j < all.len() && all[j] == i;
                if j < before.len() {
                    assert(before[j] == i);
                    assert(before.contains(i));
                }
            }
            assert forall|a: int, b: int| 0 <= a < b < all.len() implies #[trigger] all[a] < #[trigger] all[b] by {
                assert(all[a] == before[a]);
                if b < before.len() {
                    assert(all[b] == before[b]);
                }
            }
            assert forall|a: int| 0 <= a < all.len() implies #[trigger] all[a] < entries.len() by {
                if a < before.len() {
                    assert(all[a] == before[a]);
                }
            }
        }
    }
}

/// The region files of a directory are its files with one of three extensions, no deeper than
/// 114 levels, or directly in it: all with the first extension, then all with the second, then all
/// with the third, each in the order of the listing.
pub proof fn region_files_are_of_three_kinds(entries: Seq<DirEntry>, walk: bool, i: usize, a: int, b: int)
    requires
        entries.len() <= usize::MAX,
    ensures
        region_files(entries, walk).contains(i) <==> i < entries.len() && is_region_file(entries[i as int], walk),
        0 <= a < b < region_files(entries, walk).len() ==> {
            let e = entries[region_files(entries, walk)[a] as int];
            let f = entries[region_files(entries, walk)[b] as int];
            rank(e) < rank(f) || (rank(e) == rank(f) && region_files(entries, walk)[a] < region_files(
                entries,
                walk,
            )[b])
        },
{
    reveal_strlit("mca");
    reveal_strlit("linear");
    reveal_strlit("b_linear");
    assert("mca"@.len() == 3 && "linear"@.len() == 6 && "b_linear"@.len() == 8);
    let depth = if walk {
        114int
    } else {
        1int
    };
    let p = matching(entries, "mca"@, depth);
    let q = matching(entries, "linear"@, depth);
    let r = matching(entries, "b_linear"@, depth);
    let all = region_files(entries, walk);
    assert(all =~= p + q + r);
    files_are_chosen_in_order(entries, "mca"@, depth, i);
    files_are_chosen_in_order(entries, "linear"@, depth, i);
    files_are_chosen_in_order(entries, "b_linear"@, depth, i);
    if p.contains(i) {
        let j = choose|j: int| 0 <= j < p.len() && p[j] == i;
        assert(all[j] == i);
    }
    if q.contains(i) {
        let j = choose|j: int| 0 <= j < q.len() && q[j] == i;
        assert(all[p.len() + j] == i);
    }
    if r.contains(i) {
        let j = choose|j: int| 0 <= j < r.len() && r[j] == i;
        assert(all[p.len() + q.len() + j] == i);
    }
    if all.contains(i) {
        let j = choose|j: int| 0 <= j < all.len() && all[j] == i;
        if j < p.len() {
            assert(p[j] == i);
        } else if j < p.len() + q.len() {
            assert(q[j - p.len()] == i);
        } else {
            assert(r[j - p.len() - q.len()] == i);
        }
    }
    if 0 <= a < b < all.len() {
        file_at(entries, p, q, r, depth, all, a);
        file_at(entries, p, q, r, depth, all, b);
    }
}

/// The entry is a file with one of the extensions, no deeper than asked.
pub open spec fn is_region_file(e: DirEntry, walk: bool) -> bool {
    &&& e.is_file
    &&& e.depth <= if walk {
        114int
    } else {
        1int
    }
    &&& e.extension is Some
    &&& e.extension->Some_0@ == "mca"@ || e.extension->Some_0@ == "linear"@ || e.extension->Some_0@ == "b_linear"@
}

/// The rank of an entry's extension.
pub open spec fn rank(e: DirEntry) -> int {
    if e.extension is Some && e.extension->Some_0@ == "mca"@ {
        0
    } else if e.extension is Some && e.extension->Some_0@ == "linear"@ {
        1
    } else {
        2
    }
}

proof fn file_at(
    entries: Seq<DirEntry>,
    p: Seq<usize>,
    q: Seq<usize>,
    r: Seq<usize>,
    depth: int,
    all: Seq<usize>,
    a: int,
)
    requires
        entries.len() <= usize::MAX,
        p == matching(entries, "mca"@, depth),
        q == matching(entries, "linear"@, depth),
        r == matching(entries, "b_linear"@, depth),
        all == p + q + r,
        0 <= a < all.len(),
        "mca"@.len() == 3 && "linear"@.len() == 6 && "b_linear"@.len() == 8,
    ensures
        a < p.len() ==> rank(entries[all[a] as int]) == 0,
        p.len() <= a < p.len() + q.len() ==> rank(entries[all[a] as int]) == 1,
        p.len() + q.len() <= a ==> rank(entries[all[a] as int]) == 2,
{
    let i = all[a];
    files_are_chosen_in_order(entries, "mca"@, depth, i);
    files_are_chosen_in_order(entries, "linear"@, depth, i);
    files_are_chosen_in_order(entries, "b_linear"@, depth, i);
    if a < p.len() {
        assert(p[a] == i);
    } else if a < p.len() + q.len() {
        assert(q[a - p.len()] == i);
    } else {
        assert(r[a - p.len() - q.len()] == i);
    }
}

// ---- numbers ----

/// The number that decimal digits spell, the first of them worth the most.
pub open spec fn spelled(s: Seq<char>) -> int
    decreases s.len(),
{
    if s.len() == 0 {
        0
    } else {
        10 * spelled(s.drop_last()) + (s.last() as int - '0' as int)
    }
}

/// All characters are decimal digits.
pub open spec fn all_digits(s: Seq<char>) -> bool {
    forall|i: int| 0 <= i < s.len() ==> '0' <= #[trigger] s[i] <= '9'
}

/// A number is written in its decimal digits, behind a minus sign where it is negative, and
/// without a leading zero.
pub proof fn decimal_spells_the_number(v: int)
    ensures
        v >= 0 ==> all_digits(decimal(v)) && spelled(decimal(v)) == v && decimal(v).len() > 0 && (v > 0 ==> decimal(
            v,
        )[0] != '0') && (v == 0 ==> decimal(v) == seq!['0']),
        v < 0 ==> decimal(v).len() > 1 && decimal(v)[0] == '-' && decimal(v)[1] != '0' && all_digits(
            decimal(v).skip(1),
        ) && spelled(decimal(v).skip(1)) == -v,
{
    let m = if v < 0 {
        (-v) as nat
    } else {
        v as nat
    };
    digits_spell(m);
    if v < 0 {
        assert(decimal(v).skip(1) =~= decimal_digits(m));
        assert(decimal(v)[1] == decimal_digits(m)[0]);
    }
}

pub(crate) proof fn digits_spell(v: nat)
    ensures
        all_digits(decimal_digits(v)),
        spelled(decimal_digits(v)) == v,
        decimal_digits(v).len() > 0,
        v > 0 ==> decimal_digits(v)[0] != '0',
        v == 0 ==> decimal_digits(v) == seq!['0'],
    decreases v,
{
    reveal_with_fuel(spelled, 2);
    digits_are_digits(v);
    let all = decimal_digits(v);
    if v >= 10 {
        digits_spell(v / 10);
        assert(all.drop_last() =~= decimal_digits(v / 10));
        assert(all[0] == decimal_digits(v / 10)[0]);
    } else {
        assert(all.drop_last() =~= Seq::empty());
    }
    assert(all.last() as int - '0' as int == v % 10);
}

/// Different numbers are written differently.
pub proof fn decimal_is_injective(v: int, w: int)
    requires
        decimal(v) == decimal(w),
    ensures
        v == w,
{
    decimal_spells_the_number(v);
    decimal_spells_the_number(w);
    if v >= 0 {
        assert('0' <= decimal(v)[0] <= '9');
    }
    if w >= 0 {
        assert('0' <= decimal(w)[0] <= '9');
    }
}

/// A coordinate that is read is the number that its digits spell, and fits in 32 bits; behind the
/// sign there is nothing but digits, and at least one.
pub proof fn read_number_is_the_one_spelled(s: Seq<char>)
    ensures
        int_value(s) matches Ok(v) ==> {
            let rest = if s[0] == '-' || s[0] == '+' {
                s.skip(1)
            } else {
                s
            };
            &&& s.len() > 0
            &&& rest.len() > 0
            &&& all_digits(rest)
            &&& v == if s[0] == '-' {
                -spelled(rest)
            } else {
                spelled(rest)
            }
            &&& -0x8000_0000 <= v <= 0x7FFF_FFFF
        },
{
    if s.len() > 0 {
        if s[0] == '-' || s[0] == '+' {
            if s.len() == 1 {
                assert(s =~= seq![s[0]]);
            }
            assert(s.skip(1) =~= s.drop_first());
            digits_read(s.skip(1), s[0] == '-');
        } else {
            digits_read(s, false);
        }
    }
}

proof fn digits_read(s: Seq<char>, negative: bool)
    ensures
        digits_value(s, negative) matches Ok(v) ==> {
            &&& all_digits(s)
            &&& v == if negative {
                -spelled(s)
            } else {
                spelled(s)
            }
            &&& -0x8000_0000 <= v <= 0x7FFF_FFFF
        },
    decreases s.len(),
{
    if s.len() > 0 {
        digits_read(s.drop_last(), negative);
        if digits_value(s, negative) is Ok {
            assert forall|i: int| 0 <= i < s.len() implies '0' <= #[trigger] s[i] <= '9' by {
                if i < s.len() - 1 {
                    assert(s.drop_last()[i] == s[i]);
                } else {
                    assert(s[i] == s.last());
                }
            }
        }
    }
}

/// Every coordinate of digits that fits in 32 bits is read, with or without a plus sign, and with
/// a minus sign the number below zero. An empty one is a fault, and so is a sign alone.
pub proof fn fitting_number_is_read(s: Seq<char>)
    requires
        all_digits(s),
    ensures
        s.len() == 0 ==> int_value(s) == Err::<int, NameFault>(NameFault::Empty) && int_value(seq!['-']) == Err::<
            int,
            NameFault,
        >(NameFault::InvalidDigit) && int_value(seq!['+']) == Err::<int, NameFault>(NameFault::InvalidDigit),
        s.len() > 0 && spelled(s) <= 0x7FFF_FFFF ==> int_value(s) == Ok::<int, NameFault>(spelled(s)) && int_value(
            seq!['+'] + s,
        ) == Ok::<int, NameFault>(spelled(s)),
        s.len() > 0 && spelled(s) <= 0x8000_0000 ==> int_value(seq!['-'] + s) == Ok::<int, NameFault>(-spelled(s)),
        s.len() > 0 && spelled(s) > 0x7FFF_FFFF ==> int_value(s) == Err::<int, NameFault>(NameFault::TooLarge)
            && int_value(seq!['+'] + s) == Err::<int, NameFault>(NameFault::TooLarge),
        s.len() > 0 && spelled(s) > 0x8000_0000 ==> int_value(seq!['-'] + s) == Err::<int, NameFault>(
            NameFault::TooSmall,
        ),
{
    let plus = seq!['+'] + s;
    let minus = seq!['-'] + s;
    assert(plus.drop_first() =~= s);
    assert(minus.drop_first() =~= s);
    if s.len() > 0 {
        assert('0' <= s[0] <= '9');
        assert(seq!['-'].len() == 1 && seq!['+'].len() == 1);
        assert(plus.len() > 1 && minus.len() > 1);
        assert(seq!['-'][0] == '-' && seq!['+'][0] == '+');
        digits_fit(s, false);
        digits_fit(s, true);
    }
}

proof fn digits_fit(s: Seq<char>, negative: bool)
    requires
        all_digits(s),
    ensures
        spelled(s) >= 0,
        !negative && spelled(s) <= 0x7FFF_FFFF ==> digits_value(s, negative) == Ok::<int, NameFault>(spelled(s)),
        !negative && spelled(s) > 0x7FFF_FFFF ==> digits_value(s, negative) == Err::<int, NameFault>(
            NameFault::TooLarge,
        ),
        negative && spelled(s) <= 0x8000_0000 ==> digits_value(s, negative) == Ok::<int, NameFault>(-spelled(s)),
        negative && spelled(s) > 0x8000_0000 ==> digits_value(s, negative) == Err::<int, NameFault>(
            NameFault::TooSmall,
        ),
    decreases s.len(),
{
    if s.len() > 0 {
        let rest = s.drop_last();
        assert forall|i: int| 0 <= i < rest.len() implies '0' <= #[trigger] rest[i] <= '9' by {
            assert(rest[i] == s[i]);
        }
        assert('0' <= s[s.len() - 1] <= '9');
        digits_fit(rest, negative);
    }
}

/// A character that is no digit is a fault, where what stands before it was read.
pub proof fn other_character_is_a_fault(before: Seq<char>, c: char, after: Seq<char>)
    requires
        all_digits(before),
        before.len() > 0,
        spelled(before) <= 0x7FFF_FFFF,
        !('0' <= c <= '9'),
    ensures
        int_value(before.push(c) + after) == Err::<int, NameFault>(NameFault::InvalidDigit),
{
    let s = before.push(c) + after;
    let n = before.len() as int + 1;
    digits_fit(before, false);
    assert('0' <= before[0] <= '9');
    assert(s[0] == before[0]);
    assert(seq!['-'].len() == 1 && seq!['+'].len() == 1);
    assert(seq!['-'][0] == '-' && seq!['+'][0] == '+');
    assert(s.take(n) =~= before.push(c));
    assert(s.take(n).drop_last() =~= before);
    fault_stays(s, n, false);
}

// ---- names ----

/// Text without dots is one part, and one more dot with text behind it is one part more.
pub proof fn parts_stand_between_dots(s: Seq<char>, t: Seq<char>)
    requires
        forall|i: int| 0 <= i < t.len() ==> #[trigger] t[i] != '.',
    ensures
        dot_parts(t) == seq![t],
        dot_parts(s + seq!['.'] + t) == dot_parts(s).push(t),
{
    let empty = Seq::<char>::empty();
    plain_text_extends(empty, t);
    assert(empty + t =~= t);
    assert(dot_parts(empty) =~= seq![empty]);
    assert(dot_parts(t) =~= seq![t]);
    let head = s + seq!['.'];
    assert(head.drop_last() =~= s);
    assert(head.last() == '.');
    plain_text_extends(head, t);
    assert(dot_parts(head) == dot_parts(s).push(empty));
    assert(dot_parts(head).drop_last() =~= dot_parts(s));
    assert(dot_parts(head).last() + t =~= t);
}

/// The coordinates of a name are its second and third part, and the first part is `r` or `c`.
pub proof fn coordinates_are_the_second_and_third_part(name: Seq<char>)
    ensures
        ({
            let parts = dot_parts(name);
            &&& parts.len() < 3 || (parts[0] != seq!['r'] && parts[0] != seq!['c']) ==> name_coords(name) == Err::<
                (int, int),
                NameFault,
            >(NameFault::Format)
            &&& name_coords(name) matches Ok(at) ==> parts.len() >= 3 && int_value(parts[1]) == Ok::<int, NameFault>(
                at.0,
            ) && int_value(parts[2]) == Ok::<int, NameFault>(at.1)
            &&& parts.len() >= 3 && (parts[0] == seq!['r'] || parts[0] == seq!['c']) ==> {
                &&& int_value(parts[1]) is Ok && int_value(parts[2]) is Ok ==> name_coords(name) is Ok
                &&& int_value(parts[1]) is Err ==> name_coords(name) == Err::<(int, int), NameFault>(
                    int_value(parts[1])->Err_0,
                )
                &&& int_value(parts[1]) is Ok && int_value(parts[2]) is Err ==> name_coords(name) == Err::<
                    (int, int),
                    NameFault,
                >(int_value(parts[2])->Err_0)
            }
        }),
{
}

/// The name of a chunk's own file has four parts: `c`, the two coordinates in decimal, `x` first,
/// and `mcc`. So no two chunks share a file.
pub proof fn own_file_is_named_for_its_chunk(x: int, z: int)
    ensures
        dot_parts(external_file(x, z)) == seq![seq!['c'], decimal(x), decimal(z), seq!['m', 'c', 'c']],
{
    reveal_strlit("c.");
    reveal_strlit(".");
    reveal_strlit(".mcc");
    let c = seq!['c'];
    let mcc = seq!['m', 'c', 'c'];
    no_dots_in(x);
    no_dots_in(z);
    let a = c + seq!['.'] + decimal(x);
    let b = a + seq!['.'] + decimal(z);
    let d = b + seq!['.'] + mcc;
    assert("c."@ + decimal(x) =~= a);
    assert("c."@ + decimal(x) + "."@ + decimal(z) =~= b);
    assert(external_file(x, z) =~= d);
    parts_stand_between_dots(Seq::empty(), c);
    parts_stand_between_dots(c, decimal(x));
    parts_stand_between_dots(a, decimal(z));
    parts_stand_between_dots(b, mcc);
    assert(dot_parts(d) =~= seq![c, decimal(x), decimal(z), mcc]);
}

/// No two chunks have one file.
pub proof fn own_files_are_distinct(x: int, z: int, u: int, w: int)
    requires
        external_file(x, z) == external_file(u, w),
    ensures
        x == u,
        z == w,
{
    own_file_is_named_for_its_chunk(x, z);
    own_file_is_named_for_its_chunk(u, w);
    let p = dot_parts(external_file(x, z));
    let q = dot_parts(external_file(u, w));
    assert(p[1] == q[1] && p[2] == q[2]);
    decimal_is_injective(x, u);
    decimal_is_injective(z, w);
}

// ---- hashes ----

/// The value of a hexadecimal digit.
pub open spec fn hex_value(c: char) -> int {
    if c <= '9' {
        c as int - '0' as int
    } else {
        c as int - 'a' as int + 10
    }
}

/// Each byte is two digits, the higher half first.
pub proof fn hex_spells_the_bytes(h: Seq<u8>, i: int)
    requires
        0 <= i < h.len(),
    ensures
        hex(h).len() == 2 * h.len(),
        16 * hex_value(hex(h)[2 * i]) + hex_value(hex(h)[2 * i + 1]) == h[i],
        0 <= hex_value(hex(h)[2 * i]) < 16,
        0 <= hex_value(hex(h)[2 * i + 1]) < 16,
        forall|j: int| 0 <= j < hex(h).len() ==> ('0' <= #[trigger] hex(h)[j] <= '9') || ('a' <= hex(h)[j] <= 'f'),
{
    let m = 2 * i;
    let n = 2 * i + 1;
    assert(m / 2 == i && m % 2 == 0 && n / 2 == i && n % 2 == 1);
    assert(hex(h)[m] == digit(h[i] as int / 16));
    assert(hex(h)[n] == digit(h[i] as int % 16));
}

} // verus!
