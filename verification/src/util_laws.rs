//! Laws of names and of written numbers.
use vstd::prelude::*;

use crate::hash::hex;
use crate::text::{decimal, decimal_digits, digit};
use crate::util::{digits_value, dot_parts, int_value, name_coords, NameFault};

verus! {

// ---- written numbers ----

/// The digits of a number are digits.
pub(crate) proof fn digits_are_digits(v: nat)
    ensures
        decimal_digits(v).len() > 0,
        forall|i: int| 0 <= i < decimal_digits(v).len() ==> '0' <= #[trigger] decimal_digits(v)[i] <= '9',
    decreases v,
{
    if v >= 10 {
        digits_are_digits(v / 10);
        let rest = decimal_digits(v / 10);
        let all = decimal_digits(v);
        assert forall|i: int| 0 <= i < all.len() implies '0' <= #[trigger] all[i] <= '9' by {
            if i < rest.len() {
                assert(all[i] == rest[i]);
            }
        }
    }
}

proof fn digits_read_back(v: nat, negative: bool)
    requires
        if negative {
            v <= 0x8000_0000
        } else {
            v <= 0x7FFF_FFFF
        },
    ensures
        digits_value(decimal_digits(v), negative) == Ok::<int, NameFault>(
            if negative {
                -v
            } else {
                v as int
            },
        ),
    decreases v,
{
    reveal_with_fuel(digits_value, 2);
    let all = decimal_digits(v);
    if v >= 10 {
        digits_read_back(v / 10, negative);
        assert(all.drop_last() =~= decimal_digits(v / 10));
        assert(all.last() == digit((v % 10) as int));
        assert(v == 10 * (v / 10) + v % 10);
    } else {
        assert(all.drop_last() =~= Seq::empty());
        assert(all.last() == digit(v as int));
    }
    assert(all.last() as int - '0' as int == v % 10);
}

/// A number of 32 bits, written in decimal, reads as that number.
pub proof fn decimal_reads_back(v: int)
    requires
        i32::MIN <= v <= i32::MAX,
    ensures
        int_value(decimal(v)) == Ok::<int, NameFault>(v),
{
    let s = decimal(v);
    if v < 0 {
        let digits = decimal_digits((-v) as nat);
        digits_are_digits((-v) as nat);
        digits_read_back((-v) as nat, true);
        assert(s.drop_first() =~= digits);
        assert(s.len() > 1);
    } else {
        digits_are_digits(v as nat);
        digits_read_back(v as nat, false);
        assert('0' <= s[0] <= '9');
        assert(seq!['-'][0] == '-' && seq!['+'][0] == '+');
    }
}

// ---- names ----

/// Text without dots goes to the last part.
pub(crate) proof fn plain_text_extends(s: Seq<char>, t: Seq<char>)
    requires
        forall|i: int| 0 <= i < t.len() ==> #[trigger] t[i] != '.',
    ensures
        dot_parts(s).len() > 0,
        dot_parts(s + t) == dot_parts(s).drop_last().push(dot_parts(s).last() + t),
    decreases t.len(),
{
    parts_not_empty(s);
    if t.len() == 0 {
        assert(s + t =~= s);
        assert(dot_parts(s).last() + t =~= dot_parts(s).last());
        assert(dot_parts(s) =~= dot_parts(s).drop_last().push(dot_parts(s).last() + t));
    } else {
        let rest = t.drop_last();
        plain_text_extends(s, rest);
        assert((s + t).drop_last() =~= s + rest);
        assert((s + t).last() == t.last());
        assert((dot_parts(s).last() + rest).push(t.last()) =~= dot_parts(s).last() + t);
        let sofar = dot_parts(s + rest);
        assert(sofar.drop_last() =~= dot_parts(s).drop_last());
        assert(dot_parts(s + t) =~= dot_parts(s).drop_last().push(dot_parts(s).last() + t));
    }
}

proof fn parts_not_empty(s: Seq<char>)
    ensures
        dot_parts(s).len() > 0,
    decreases s.len(),
{
    if s.len() > 0 {
        parts_not_empty(s.drop_last());
    }
}

/// What follows a dot leaves the parts before it as they are.
proof fn dotted_text_extends(s: Seq<char>, t: Seq<char>)
    requires
        t.len() > 0,
        t[0] == '.',
    ensures
        dot_parts(s + t).len() > dot_parts(s).len(),
        forall|i: int| 0 <= i < dot_parts(s).len() ==> #[trigger] dot_parts(s + t)[i] == dot_parts(s)[i],
    decreases t.len(),
{
    let rest = t.drop_last();
    assert((s + t).drop_last() =~= s + rest);
    assert((s + t).last() == t.last());
    if t.len() == 1 {
        assert(s + rest =~= s);
    } else {
        dotted_text_extends(s, rest);
        let sofar = dot_parts(s + rest);
        assert forall|i: int| 0 <= i < dot_parts(s).len() implies #[trigger] dot_parts(s + t)[i]
            == dot_parts(s)[i] by {
            assert(dot_parts(s + t)[i] == sofar[i]);
        }
    }
}

/// A file named for a region names that region: `r` or `c`, the two coordinates in decimal, and
/// any ending behind a dot, or none.
pub proof fn region_name_reads_back(first: char, x: int, z: int, ending: Seq<char>)
    requires
        first == 'r' || first == 'c',
        i32::MIN <= x <= i32::MAX,
        i32::MIN <= z <= i32::MAX,
        ending.len() > 0 ==> ending[0] == '.',
    ensures
        name_coords(seq![first, '.'] + decimal(x) + seq!['.'] + decimal(z) + ending) == Ok::<
            (int, int),
            NameFault,
        >((x, z)),
{
    let empty = Seq::<char>::empty();
    let s1 = seq![first];
    let s2 = seq![first, '.'];
    let s3 = s2 + decimal(x);
    let s4 = s3 + seq!['.'];
    let s5 = s4 + decimal(z);
    let s6 = s5 + ending;
    assert(s1.drop_last() =~= empty);
    assert(dot_parts(empty).drop_last() =~= Seq::empty());
    assert(dot_parts(s1)[0] =~= seq![first]);
    assert(s2.drop_last() =~= s1);
    no_dots_in(x);
    no_dots_in(z);
    plain_text_extends(s2, decimal(x));
    assert(dot_parts(s3)[1] =~= decimal(x));
    assert(dot_parts(s3)[0] == seq![first]);
    assert(s4.drop_last() =~= s3);
    assert(dot_parts(s4).len() == 3);
    plain_text_extends(s4, decimal(z));
    assert(dot_parts(s5)[2] =~= decimal(z));
    assert(dot_parts(s5)[1] == decimal(x));
    assert(dot_parts(s5)[0] == seq![first]);
    if ending.len() > 0 {
        dotted_text_extends(s5, ending);
        assert(dot_parts(s6)[0] == dot_parts(s5)[0]);
        assert(dot_parts(s6)[1] == dot_parts(s5)[1]);
        assert(dot_parts(s6)[2] == dot_parts(s5)[2]);
    } else {
        assert(s6 =~= s5);
    }
    decimal_reads_back(x);
    decimal_reads_back(z);
}

pub(crate) proof fn no_dots_in(v: int)
    ensures
        forall|i: int| 0 <= i < decimal(v).len() ==> #[trigger] decimal(v)[i] != '.',
{
    if v < 0 {
        let digits = decimal_digits((-v) as nat);
        digits_are_digits((-v) as nat);
        assert forall|i: int| 0 <= i < decimal(v).len() implies #[trigger] decimal(v)[i] != '.' by {
            if i > 0 {
                assert(decimal(v)[i] == digits[i - 1]);
            }
        }
    } else {
        digits_are_digits(v as nat);
    }
}

// ---- hashes in hexadecimal ----

/// A hash is 32 characters long, all of them digits or letters from `a` to `f`.
pub proof fn hex_is_lower_case(h: Seq<u8>)
    requires
        h.len() == 16,
    ensures
        hex(h).len() == 32,
        forall|i: int|
            0 <= i < 32 ==> ('0' <= #[trigger] hex(h)[i] <= '9') || ('a' <= hex(h)[i] <= 'f'),
{
}

/// Different hashes are written differently.
pub proof fn hex_is_injective(a: Seq<u8>, b: Seq<u8>)
    requires
        hex(a) == hex(b),
    ensures
        a == b,
{
    assert(hex(a).len() == 2 * a.len() && hex(b).len() == 2 * b.len());
    assert forall|i: int| 0 <= i < a.len() implies a[i] == b[i] by {
        let m = 2 * i;
        let n = 2 * i + 1;
        assert(m / 2 == i && m % 2 == 0 && n / 2 == i && n % 2 == 1);
        assert(hex(a)[m] == digit(a[m / 2] as int / 16));
        assert(hex(b)[m] == digit(b[m / 2] as int / 16));
        assert(hex(a)[n] == digit(a[n / 2] as int % 16));
        assert(hex(b)[n] == digit(b[n / 2] as int % 16));
        digit_is_injective(a[i] as int / 16, b[i] as int / 16);
        digit_is_injective(a[i] as int % 16, b[i] as int % 16);
    }
    assert(a =~= b);
}

proof fn digit_is_injective(c: int, d: int)
    requires
        0 <= c < 16,
        0 <= d < 16,
        digit(c) == digit(d),
    ensures
        c == d,
{
}

} // verus!
