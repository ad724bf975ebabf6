//! File types, region coordinates in file names, and the choice of region files in a directory.
use vstd::prelude::*;
use vstd::string::StringExecFns;
use vstd::string::StrSliceExecFns;

verus! {

// ---- file types ----

/// The kinds of region files.
#[derive(Clone, Copy, Debug, PartialEq, Eq, Structural)]
pub enum FileType {
    Anvil,
    LinearV2,
    BLinearV3,
    /// Outdated: recognised, so that it can be refused by name, and never parsed.
    LinearV1,
}

/// The first bytes of a linear file.
pub const LINEAR_V2_MAGIC: [u8; 8] = [0xC3, 0xFF, 0x13, 0x18, 0x3C, 0xCA, 0x9D, 0x9A];

/// The first bytes of a b_linear file.
pub const B_LINEAR_V3_MAGIC: [u8; 8] = [0xFF, 0xFF, 0xDF, 0xF7, 0xED, 0xDA, 0xFD, 0x97];

/// Why no file type can be told.
#[derive(Clone, Copy, Debug, PartialEq, Eq, Structural)]
pub enum TypeFault {
    /// The file ends right behind the magic.
    Truncated,
    /// A b_linear file of another version than 3.
    BLinearVersion,
    /// A linear file of another version than 1, 2 and 3.
    LinearVersion,
}

/// The type of a file with these bytes. An anvil file has no magic: what is not of the linear
/// family counts as anvil.
pub open spec fn file_type(data: Seq<u8>) -> Result<FileType, TypeFault> {
    if data.len() < 8 {
        Ok(FileType::Anvil)
    } else if data.take(8) == B_LINEAR_V3_MAGIC@ {
        if data.len() == 8 {
            Err(TypeFault::Truncated)
        } else if data[8] == 3 {
            Ok(FileType::BLinearV3)
        } else {
            Err(TypeFault::BLinearVersion)
        }
    } else if data.take(8) == LINEAR_V2_MAGIC@ {
        if data.len() == 8 {
            Err(TypeFault::Truncated)
        } else if data[8] == 1 || data[8] == 2 {
            Ok(FileType::LinearV1)
        } else if data[8] == 3 {
            Ok(FileType::LinearV2)
        } else {
            Err(TypeFault::LinearVersion)
        }
    } else {
        Ok(FileType::Anvil)
    }
}

/// Whether `data` begins with `magic`.
fn begins_with(data: &[u8], magic: &[u8; 8]) -> (r: bool)
    requires
        data@.len() >= 8,
    ensures
        r == (data@.take(8) == magic@),
{
    let mut i: usize = 0;
    while i < 8
        invariant
            i <= 8 <= data@.len(),
            forall|j: int| 0 <= j < i ==> data@[j] == magic@[j],
        decreases 8 - i,
    {
        if data[i] != magic[i] {
            assert(data@.take(8)[i as int] != magic@[i as int]);
            return false;
        }
        i += 1;
    }
    assert(data@.take(8) =~= magic@);
    true
}

/// Tells the type of a region file from its bytes.
pub fn get_file_type(data: &[u8]) -> (r: Result<FileType, TypeFault>)
    ensures
        r == file_type(data@),
{
    if data.len() < 8 {
        return Ok(FileType::Anvil);
    }
    let b_linear: [u8; 8] = B_LINEAR_V3_MAGIC;
    let linear: [u8; 8] = LINEAR_V2_MAGIC;
    if begins_with(data, &b_linear) {
        if data.len() == 8 {
            Err(TypeFault::Truncated)
        } else if data[8] == 3 {
            Ok(FileType::BLinearV3)
        } else {
            Err(TypeFault::BLinearVersion)
        }
    } else if begins_with(data, &linear) {
        if data.len() == 8 {
            Err(TypeFault::Truncated)
        } else if data[8] == 1 || data[8] == 2 {
            Ok(FileType::LinearV1)
        } else if data[8] == 3 {
            Ok(FileType::LinearV2)
        } else {
            Err(TypeFault::LinearVersion)
        }
    } else {
        Ok(FileType::Anvil)
    }
}

// ---- region coordinates ----

/// Why a file name gives no region coordinates.
#[derive(Clone, Copy, Debug, PartialEq, Eq, Structural)]
pub enum NameFault {
    /// Fewer than three parts, or another first part than `r` or `c`.
    Format,
    /// A coordinate is empty.
    Empty,
    /// A coordinate has a character that is no digit, or no digit at all.
    InvalidDigit,
    /// A coordinate is above the largest 32-bit integer.
    TooLarge,
    /// A coordinate is below the smallest 32-bit integer.
    TooSmall,
}

/// The parts of `s` between its dots.
pub open spec fn dot_parts(s: Seq<char>) -> Seq<Seq<char>>
    decreases s.len(),
{
    if s.len() == 0 {
        seq![Seq::empty()]
    } else {
        let parts = dot_parts(s.drop_last());
        if s.last() == '.' {
            parts.push(Seq::empty())
        } else {
            parts.drop_last().push(parts.last().push(s.last()))
        }
    }
}

/// The number that the decimal digits `s` spell, negated where `negative`. The first character
/// that is no digit, or with which the number leaves the 32 bits, decides the fault.
pub open spec fn digits_value(s: Seq<char>, negative: bool) -> Result<int, NameFault>
    decreases s.len(),
{
    if s.len() == 0 {
        Ok(0)
    } else {
        match digits_value(s.drop_last(), negative) {
            Err(fault) => Err(fault),
            Ok(v) => {
                let d = s.last() as int - '0' as int;
                let w = if negative {
                    10 * v - d
                } else {
                    10 * v + d
                };
                if !(0 <= d < 10) {
                    Err(NameFault::InvalidDigit)
                } else if w > i32::MAX {
                    Err(NameFault::TooLarge)
                } else if w < i32::MIN {
                    Err(NameFault::TooSmall)
                } else {
                    Ok(w)
                }
            },
        }
    }
}

/// The 32-bit integer that `s` spells: an optional sign, and at least one decimal digit.
pub open spec fn int_value(s: Seq<char>) -> Result<int, NameFault> {
    if s.len() == 0 {
        Err(NameFault::Empty)
    } else if s == seq!['-'] || s == seq!['+'] {
        Err(NameFault::InvalidDigit)
    } else if s[0] == '-' {
        digits_value(s.drop_first(), true)
    } else if s[0] == '+' {
        digits_value(s.drop_first(), false)
    } else {
        digits_value(s, false)
    }
}

/// The region coordinates in a file name: `r` or `c`, then the two coordinates, then anything,
/// with dots between.
pub open spec fn name_coords(name: Seq<char>) -> Result<(int, int), NameFault> {
    let parts = dot_parts(name);
    if parts.len() < 3 || (parts[0] != seq!['r'] && parts[0] != seq!['c']) {
        Err(NameFault::Format)
    } else {
        match int_value(parts[1]) {
            Err(fault) => Err(fault),
            Ok(x) => match int_value(parts[2]) {
                Err(fault) => Err(fault),
                Ok(z) => Ok((x, z)),
            },
        }
    }
}

/// What is said of a fault in `name`.
pub open spec fn name_fault_text(fault: NameFault, name: Seq<char>) -> Seq<char> {
    match fault {
        NameFault::Format => "invalid filename format: "@ + name,
        NameFault::Empty => "cannot parse integer from empty string"@,
        NameFault::InvalidDigit => "invalid digit found in string"@,
        NameFault::TooLarge => "number too large to fit in target type"@,
        NameFault::TooSmall => "number too small to fit in target type"@,
    }
}

/// The parts of `s` between its dots.
fn split_dots(s: &str) -> (r: Vec<Vec<char>>)
    ensures
        r@.len() == dot_parts(s@).len(),
        forall|i: int| 0 <= i < r@.len() ==> (#[trigger] r@[i])@ == dot_parts(s@)[i],
{
    let n: usize = s.unicode_len();
    let mut done: Vec<Vec<char>> = Vec::new();
    let mut last: Vec<char> = Vec::new();
    let mut i: usize = 0;
    while i < n
        invariant
            i <= n == s@.len(),
            dot_parts(s@.take(i as int)).len() == done@.len() + 1,
            dot_parts(s@.take(i as int)).last() == last@,
            forall|j: int|
                0 <= j < done@.len() ==> (#[trigger] done@[j])@ == dot_parts(s@.take(i as int))[j],
        decreases n - i,
    {
        let c = s.get_char(i);
        assert(s@.take(i + 1).drop_last() =~= s@.take(i as int));
        if c == '.' {
            done.push(last);
            last = Vec::new();
        } else {
            last.push(c);
        }
        i += 1;
    }
    assert(s@.take(n as int) =~= s@);
    done.push(last);
    done
}

/// The number that the digits of `s` from `from` on spell.
fn read_digits(s: &Vec<char>, from: usize, negative: bool) -> (r: Result<i32, NameFault>)
    requires
        from <= s@.len(),
    ensures
        match (r, digits_value(s@.skip(from as int), negative)) {
            (Ok(v), Ok(w)) => v == w,
            (Err(fault), Err(expected)) => fault == expected,
            _ => false,
        },
{
    let ghost digits = s@.skip(from as int);
    let mut v: i64 = 0;
    let mut i: usize = from;
    while i < s.len()
        invariant
            from <= i <= s@.len(),
            digits == s@.skip(from as int),
            i32::MIN <= v <= i32::MAX,
            digits_value(digits.take(i - from), negative) == Ok::<int, NameFault>(v as int),
        decreases s@.len() - i,
    {
        let c: char = s[i];
        proof {
            assert(digits.take(i + 1 - from).drop_last() =~= digits.take(i - from));
            if digits_value(digits.take(i + 1 - from), negative) is Err {
                fault_stays(digits, i + 1 - from, negative);
            }
        }
        if !('0' <= c && c <= '9') {
            return Err(NameFault::InvalidDigit);
        }
        let d: i64 = (c as u32 - '0' as u32) as i64;
        v = if negative {
            10 * v - d
        } else {
            10 * v + d
        };
        if v > i32::MAX as i64 {
            return Err(NameFault::TooLarge);
        }
        if v < i32::MIN as i64 {
            return Err(NameFault::TooSmall);
        }
        i += 1;
    }
    assert(digits.take(i - from) =~= digits);
    Ok(v as i32)
}

/// What follows a fault does not matter.
pub(crate) proof fn fault_stays(digits: Seq<char>, n: int, negative: bool)
    requires
        0 <= n <= digits.len(),
        digits_value(digits.take(n), negative) is Err,
    ensures
        digits_value(digits, negative) == digits_value(digits.take(n), negative),
    decreases digits.len() - n,
{
    if n < digits.len() {
        assert(digits.take(n + 1).drop_last() =~= digits.take(n));
        fault_stays(digits, n + 1, negative);
    } else {
        assert(digits.take(n) =~= digits);
    }
}

/// The 32-bit integer that `s` spells.
fn read_int(s: &Vec<char>) -> (r: Result<i32, NameFault>)
    ensures
        match (r, int_value(s@)) {
            (Ok(v), Ok(w)) => v == w,
            (Err(fault), Err(expected)) => fault == expected,
            _ => false,
        },
{
    if s.len() == 0 {
        return Err(NameFault::Empty);
    }
    assert(s@.skip(0) =~= s@);
    assert(s@.skip(1) =~= s@.drop_first());
    if s[0] == '-' || s[0] == '+' {
        if s.len() == 1 {
            proof {
                assert(s@ =~= seq![s@[0]]);
            }
            return Err(NameFault::InvalidDigit);
        }
        read_digits(s, 1, s[0] == '-')
    } else {
        read_digits(s, 0, false)
    }
}

/// Whether `part` is the one character `c`.
fn is_char(part: &Vec<char>, c: char) -> (r: bool)
    ensures
        r == (part@ == seq![c]),
{
    if part.len() == 1 && part[0] == c {
        assert(part@ =~= seq![c]);
        true
    } else {
        assert(seq![c].len() == 1 && seq![c][0] == c);
        false
    }
}

/// The region coordinates in a file name, or what is wrong with it.
pub fn region_coords(name: &str) -> (r: Result<(i32, i32), NameFault>)
    ensures
        match (r, name_coords(name@)) {
            (Ok(p), Ok(q)) => p.0 == q.0 && p.1 == q.1,
            (Err(fault), Err(expected)) => fault == expected,
            _ => false,
        },
{
    let parts = split_dots(name);
    if parts.len() < 3 || !(is_char(&parts[0], 'r') || is_char(&parts[0], 'c')) {
        return Err(NameFault::Format);
    }
    let x: i32 = match read_int(&parts[1]) {
        Ok(v) => v,
        Err(fault) => return Err(fault),
    };
    let z: i32 = match read_int(&parts[2]) {
        Ok(v) => v,
        Err(fault) => return Err(fault),
    };
    Ok((x, z))
}

/// Says what is wrong with `name`.
pub fn name_fault_message(fault: NameFault, name: &str) -> (r: String)
    ensures
        r@ == name_fault_text(fault, name@),
{
    match fault {
        NameFault::Format => {
            let mut text = "invalid filename format: ".to_owned();
            text.append(name);
            text
        },
        NameFault::Empty => "cannot parse integer from empty string".to_owned(),
        NameFault::InvalidDigit => "invalid digit found in string".to_owned(),
        NameFault::TooLarge => "number too large to fit in target type".to_owned(),
        NameFault::TooSmall => "number too small to fit in target type".to_owned(),
    }
}

/// The region coordinates in a file name such as `r.<x>.<z>.mca`, `r.<x>.<z>.linear`,
/// `r.<x>.<z>.b_linear` or `c.<x>.<z>.mcc`.
pub fn parse_region_coords(filename: &str) -> (r: Result<(i32, i32), String>)
    ensures
        match (r, name_coords(filename@)) {
            (Ok(p), Ok(q)) => p.0 == q.0 && p.1 == q.1,
            (Err(text), Err(fault)) => text@ == name_fault_text(fault, filename@),
            _ => false,
        },
{
    match region_coords(filename) {
        Ok(p) => Ok(p),
        Err(fault) => Err(name_fault_message(fault, filename)),
    }
}

// ---- region files of a directory ----

/// An entry of a directory listing: how deep it lies below the directory, whether it is a
/// file, and the extension of its name.
#[derive(Clone, Debug)]
pub struct DirEntry {
    pub depth: usize,
    pub is_file: bool,
    pub extension: Option<String>,
}

/// The entry is a file with this extension, no deeper than `max_depth`.
pub open spec fn entry_matches(e: DirEntry, suffix: Seq<char>, max_depth: int) -> bool {
    &&& e.depth <= max_depth
    &&& e.is_file
    &&& match e.extension {
        Some(extension) => extension@ == suffix,
        None => false,
    }
}

/// The positions of the matching entries, in the order of the listing.
pub open spec fn matching(entries: Seq<DirEntry>, suffix: Seq<char>, max_depth: int) -> Seq<usize>
    decreases entries.len(),
{
    if entries.len() == 0 {
        Seq::empty()
    } else {
        let found = matching(entries.drop_last(), suffix, max_depth);
        if entry_matches(entries.last(), suffix, max_depth) {
            found.push((entries.len() - 1) as usize)
        } else {
            found
        }
    }
}

/// How deep a directory is searched: 114 levels, or its own files only.
pub open spec fn search_depth(walk: bool) -> int {
    if walk {
        114
    } else {
        1
    }
}

/// How deep a directory is searched.
pub fn max_search_depth(walk: bool) -> (r: usize)
    ensures
        r == search_depth(walk),
{
    if walk {
        114
    } else {
        1
    }
}

/// The positions of the files with the extension `suffix`.
pub fn get_dir_file(entries: &[DirEntry], suffix: &str, max_depth: usize) -> (r: Vec<usize>)
    ensures
        r@ == matching(entries@, suffix@, max_depth as int),
{
    let wanted = suffix.to_owned();
    let mut found: Vec<usize> = Vec::new();
    let mut i: usize = 0;
    while i < entries.len()
        invariant
            i <= entries@.len(),
            wanted@ == suffix@,
            found@ == matching(entries@.take(i as int), suffix@, max_depth as int),
        decreases entries@.len() - i,
    {
        let e = &entries[i];
        assert(entries@.take(i + 1).drop_last() =~= entries@.take(i as int));
        if e.depth <= max_depth && e.is_file {
            if let Some(extension) = &e.extension {
                if *extension == wanted {
                    found.push(i);
                }
            }
        }
        i += 1;
    }
    assert(entries@.take(i as int) =~= entries@);
    found
}

/// The positions of all region files: first the anvil ones, then linear, then b_linear.
pub open spec fn region_files(entries: Seq<DirEntry>, walk: bool) -> Seq<usize> {
    matching(entries, "mca"@, search_depth(walk)) + matching(entries, "linear"@, search_depth(walk)) + matching(
        entries,
        "b_linear"@,
        search_depth(walk),
    )
}

/// The positions of all region files: first the anvil ones, then linear, then b_linear.
pub fn collect_region_files(entries: &[DirEntry], walk: bool) -> (r: Vec<usize>)
    ensures
        r@ == region_files(entries@, walk),
        r@ == matching(entries@, "mca"@, search_depth(walk)) + matching(
            entries@,
            "linear"@,
            search_depth(walk),
        ) + matching(entries@, "b_linear"@, search_depth(walk)),
{
    let max_depth: usize = max_search_depth(walk);
    let mut files = get_dir_file(entries, "mca", max_depth);
    let linear = get_dir_file(entries, "linear", max_depth);
    let b_linear = get_dir_file(entries, "b_linear", max_depth);
    files.extend_from_slice(linear.as_slice());
    files.extend_from_slice(b_linear.as_slice());
    files
}

} // verus!
