//! A look into one chunk of an anvil file: the fields of its root and of its sections.
use vstd::prelude::*;
use vstd::string::StringExecFns;

use crate::anvil::{decompress, decompressed};
use crate::archive::{ArchiveError, Fault};
use crate::blockhash::{sections_key, sorted_keys};
use crate::blockhash_laws::sorted_keys_listed;
use crate::bytes::{be_value, copy_range, pow256, read_be};
use crate::nbt::{entry_models, Nbt, NbtModel};
use crate::order::{
    byte_order, byte_order_strict, bytes_before_irreflexive, firsts, index_of_map, is_index, is_last, keys_at, keys_of,
    last_index, last_map, last_map_dom, last_map_value, listing_is, stand_bytes, Standing,
};
use crate::text::{decimal, push_signed, push_unsigned};

verus! {

// ---- the bytes of a chunk ----

/// The uncompressed bytes of chunk `i`; `None` for an empty slot. Compressions other than
/// gzip, zlib and none are not looked into.
pub open spec fn chunk_payload(data: Seq<u8>, i: int) -> Result<Option<Seq<u8>>, Fault> {
    if data.len() < 4096 {
        Err(Fault::Truncated)
    } else {
        let sector = be_value(data.subrange(4 * i, 4 * i + 3)) as int;
        let pos = sector * 4096;
        if sector == 0 || data[4 * i + 3] == 0 {
            Ok(None)
        } else if pos + 5 > data.len() {
            Err(Fault::Truncated)
        } else {
            let length = be_value(data.subrange(pos, pos + 4)) as int;
            let kind = data[pos + 4];
            if length == 0 || pos + 4 + length > data.len() {
                Err(Fault::Truncated)
            } else if kind == 4 {
                Err(Fault::UnknownCompression(kind))
            } else {
                match decompressed(data.subrange(pos + 5, pos + 4 + length), kind) {
                    Ok(bytes) => Ok(Some(bytes)),
                    Err(fault) => Err(fault),
                }
            }
        }
    }
}

/// Reads the bytes of a chunk.
pub fn read_chunk(data: &[u8], index: usize) -> (r: Result<Option<Vec<u8>>, ArchiveError>)
    requires
        index < 1024,
    ensures
        match (r, chunk_payload(data@, index as int)) {
            (Ok(Some(bytes)), Ok(Some(expected))) => bytes@ == expected,
            (Ok(None), Ok(None)) => true,
            (Err(e), Err(fault)) => e@ == fault,
            _ => false,
        },
{
    if data.len() < 4096 {
        return Err(ArchiveError::Truncated);
    }
    proof {
        reveal_with_fuel(pow256, 5);
    }
    let sector: u64 = read_be(data, 4 * index, 3);
    if sector == 0 || data[4 * index + 3] == 0 {
        return Ok(None);
    }
    let size: u64 = data.len() as u64;
    let start: u64 = sector * 4096;
    if start + 5 > size {
        return Err(ArchiveError::Truncated);
    }
    let pos: usize = start as usize;
    let length: u64 = read_be(data, pos, 4);
    let kind: u8 = data[pos + 4];
    if length == 0 || start + 4 + length > size {
        return Err(ArchiveError::Truncated);
    }
    if kind == 4 {
        return Err(ArchiveError::UnknownCompression(kind));
    }
    let compressed = copy_range(data, pos + 5, (length - 1) as usize);
    match decompress(compressed.as_slice(), kind) {
        Ok(bytes) => Ok(Some(bytes)),
        Err(e) => Err(e),
    }
}

// ---- the fields of a chunk ----

/// What a field holds: how much of what, or a single value.
#[derive(Clone, Debug)]
pub enum Shape {
    Compound(usize),
    List(usize),
    LongArray(usize),
    ByteArray(usize),
    IntArray(usize),
    Byte(i8),
    Short(i16),
    Int(i32),
    Long(i64),
    /// The bits of a single-precision number.
    Float(u32),
    /// The bits of a double-precision number.
    Double(u64),
    /// The bytes of a text.
    String(Vec<u8>),
}

/// What a shape stands for.
pub enum ShapeModel {
    Compound(nat),
    List(nat),
    LongArray(nat),
    ByteArray(nat),
    IntArray(nat),
    Single(NbtModel),
}

impl View for Shape {
    type V = ShapeModel;

    open spec fn view(&self) -> ShapeModel {
        match *self {
            Shape::Compound(n) => ShapeModel::Compound(n as nat),
            Shape::List(n) => ShapeModel::List(n as nat),
            Shape::LongArray(n) => ShapeModel::LongArray(n as nat),
            Shape::ByteArray(n) => ShapeModel::ByteArray(n as nat),
            Shape::IntArray(n) => ShapeModel::IntArray(n as nat),
            Shape::Byte(v) => ShapeModel::Single(NbtModel::Byte(v)),
            Shape::Short(v) => ShapeModel::Single(NbtModel::Short(v)),
            Shape::Int(v) => ShapeModel::Single(NbtModel::Int(v)),
            Shape::Long(v) => ShapeModel::Single(NbtModel::Long(v)),
            Shape::Float(v) => ShapeModel::Single(NbtModel::Float(v)),
            Shape::Double(v) => ShapeModel::Single(NbtModel::Double(v)),
            Shape::String(v) => ShapeModel::Single(NbtModel::String(v@)),
        }
    }
}

/// The shape of a value.
pub open spec fn shape_of(v: NbtModel) -> ShapeModel {
    match v {
        NbtModel::Compound(m) => ShapeModel::Compound(m.dom().len()),
        NbtModel::List(items) => ShapeModel::List(items.len()),
        NbtModel::LongArray(a) => ShapeModel::LongArray(a.len()),
        NbtModel::ByteArray(a) => ShapeModel::ByteArray(a.len()),
        NbtModel::IntArray(a) => ShapeModel::IntArray(a.len()),
        _ => ShapeModel::Single(v),
    }
}

/// A field: the bytes of its name, and its shape.
#[derive(Clone, Debug)]
pub struct Field {
    pub name: Vec<u8>,
    pub shape: Shape,
}

/// What fields stand for.
pub open spec fn field_models(fields: Seq<Field>) -> Seq<(Seq<u8>, ShapeModel)> {
    Seq::new(fields.len(), |i: int| (fields[i].name@, fields[i].shape@))
}

/// The fields of a compound, in the order of their names.
pub open spec fn fields_of(m: Map<Seq<u8>, NbtModel>) -> Seq<(Seq<u8>, ShapeModel)> {
    let keys = sorted_keys(m);
    Seq::new(keys.len(), |i: int| (keys[i], shape_of(m[keys[i]])))
}

/// The shape of a value.
pub fn shape(v: &Nbt) -> (r: Shape)
    ensures
        r@ == shape_of(v@),
{
    match v {
        Nbt::Compound(entries) => {
            let idx = last_index(entries);
            proof {
                listed_entries(entries@, idx@);
                sorted_keys_listed(last_map(entry_models(entries@)));
            }
            Shape::Compound(idx.len())
        },
        Nbt::List(items) => Shape::List(items.len()),
        Nbt::LongArray(a) => Shape::LongArray(a.len()),
        Nbt::ByteArray(a) => Shape::ByteArray(a.len()),
        Nbt::IntArray(a) => Shape::IntArray(a.len()),
        Nbt::Byte(x) => Shape::Byte(*x),
        Nbt::Short(x) => Shape::Short(*x),
        Nbt::Int(x) => Shape::Int(*x),
        Nbt::Long(x) => Shape::Long(*x),
        Nbt::Float(x) => Shape::Float(*x),
        Nbt::Double(x) => Shape::Double(*x),
        Nbt::String(s) => {
            let text = copy_range(s.as_slice(), 0, s.len());
            assert(text@ =~= s@);
            Shape::String(text)
        },
    }
}

/// The positions of a compound's entries list its keys, and point to its values.
proof fn listed_entries(entries: Seq<(Vec<u8>, Nbt)>, idx: Seq<usize>)
    requires
        is_index(idx, keys_of(entries), byte_order()),
    ensures
        ({
            let m = last_map(entry_models(entries));
            &&& m.dom().finite()
            &&& sorted_keys(m) == keys_at(keys_of(entries), idx)
            &&& forall|a: int|
                0 <= a < idx.len() ==> 0 <= #[trigger] idx[a] < entries.len() && m[entries[idx[a] as int].0@]
                    == entries[idx[a] as int].1@
        }),
{
    let pairs = entry_models(entries);
    assert(keys_of(entries) =~= firsts(pairs));
    index_of_map(idx, pairs, byte_order());
    byte_order_strict();
    listing_is(keys_at(keys_of(entries), idx), last_map(pairs).dom(), byte_order());
    last_map_dom(pairs);
    assert forall|a: int| 0 <= a < idx.len() implies 0 <= #[trigger] idx[a] < entries.len()
        && last_map(pairs)[entries[idx[a] as int].0@] == entries[idx[a] as int].1@ by {
        assert(is_last(firsts(pairs), idx[a] as int));
        assert(pairs[idx[a] as int].0 == entries[idx[a] as int].0@);
    }
}

/// The fields of a compound, in the order of their names.
pub fn fields(entries: &Vec<(Vec<u8>, Nbt)>) -> (r: Vec<Field>)
    ensures
        field_models(r@) == fields_of(last_map(entry_models(entries@))),
{
    let ghost m = last_map(entry_models(entries@));
    let idx = last_index(entries);
    proof {
        listed_entries(entries@, idx@);
    }
    let mut out: Vec<Field> = Vec::with_capacity(idx.len());
    let mut i: usize = 0;
    while i < idx.len()
        invariant
            i <= idx@.len(),
            sorted_keys(m) == keys_at(keys_of(entries@), idx@),
            forall|a: int|
                0 <= a < idx@.len() ==> 0 <= #[trigger] idx@[a] < entries@.len()
                    && m[entries@[idx@[a] as int].0@] == entries@[idx@[a] as int].1@,
            out@.len() == i,
            forall|j: int|
                0 <= j < i ==> ((#[trigger] out@[j]).name@, out@[j].shape@) == fields_of(m)[j],
        decreases idx@.len() - i,
    {
        let at: usize = idx[i];
        assert(0 <= idx@[i as int] < entries@.len());
        let entry = &entries[at];
        let name = copy_range(entry.0.as_slice(), 0, entry.0.len());
        assert(name@ =~= entry.0@);
        out.push(Field { name, shape: shape(&entry.1) });
        i += 1;
    }
    assert(field_models(out@) =~= fields_of(m));
    out
}

/// The fields of a chunk's root, and of each of its sections: `None` for a section that is no
/// compound. There are no sections where the root has no list of them.
#[derive(Clone, Debug)]
pub struct Overview {
    pub top: Vec<Field>,
    pub sections: Option<Vec<Option<Vec<Field>>>>,
}

/// The fields of a section.
pub open spec fn section_fields(section: NbtModel) -> Option<Seq<(Seq<u8>, ShapeModel)>> {
    match section {
        NbtModel::Compound(m) => Some(fields_of(m)),
        _ => None,
    }
}

/// What the fields of a section stand for.
pub open spec fn section_model(section: Option<Vec<Field>>) -> Option<Seq<(Seq<u8>, ShapeModel)>> {
    match section {
        Some(fields) => Some(field_models(fields@)),
        None => None,
    }
}

/// `o` shows the fields of the compound `m`.
pub open spec fn shows(o: Overview, m: Map<Seq<u8>, NbtModel>) -> bool {
    &&& field_models(o.top@) == fields_of(m)
    &&& if m.dom().contains(sections_key()) && m[sections_key()] is List {
        let items = m[sections_key()]->List_0;
        &&& o.sections matches Some(shown)
        &&& shown@.len() == items.len()
        &&& forall|i: int|
            0 <= i < items.len() ==> section_model(#[trigger] shown@[i]) == section_fields(items[i])
    } else {
        o.sections is None
    }
}

/// The position of the entry that counts for `key`.
fn find_entry(entries: &Vec<(Vec<u8>, Nbt)>, key: &[u8]) -> (r: Option<usize>)
    ensures
        match r {
            Some(at) => {
                &&& at < entries@.len()
                &&& last_map(entry_models(entries@)).dom().contains(key@)
                &&& last_map(entry_models(entries@))[key@] == entries@[at as int].1@
            },
            None => !last_map(entry_models(entries@)).dom().contains(key@),
        },
{
    let ghost pairs = entry_models(entries@);
    let mut i: usize = entries.len();
    while i > 0
        invariant
            i <= entries@.len(),
            pairs == entry_models(entries@),
            forall|j: int| i <= j < entries@.len() ==> (#[trigger] pairs[j]).0 != key@,
        decreases i,
    {
        i -= 1;
        match stand_bytes(entries[i].0.as_slice(), key) {
            Standing::Same => {
                proof {
                    last_map_value(pairs, i as int);
                }
                return Some(i);
            },
            _ => {
                proof {
                    bytes_before_irreflexive(key@);
                }
            },
        }
    }
    proof {
        last_map_dom(pairs);
    }
    None
}

/// Lists the fields of a chunk's root and of its sections; `None` for a root that is no
/// compound.
pub fn overview(root: &Nbt) -> (r: Option<Overview>)
    ensures
        match (r, root@) {
            (Some(o), NbtModel::Compound(m)) => shows(o, m),
            (None, NbtModel::Compound(_)) => false,
            (Some(_), _) => false,
            (None, _) => true,
        },
{
    match root {
        Nbt::Compound(entries) => {
            let ghost m = last_map(entry_models(entries@));
            let top = fields(entries);
            let sections: Option<Vec<Option<Vec<Field>>>> = match find_entry(
                entries,
                "sections".as_bytes(),
            ) {
                Some(at) => match &entries[at].1 {
                    Nbt::List(items) => Some(list_sections(items)),
                    _ => None,
                },
                None => None,
            };
            Some(Overview { top, sections })
        },
        _ => None,
    }
}

/// The fields of each section.
fn list_sections(items: &Vec<Nbt>) -> (r: Vec<Option<Vec<Field>>>)
    ensures
        r@.len() == items@.len(),
        forall|i: int|
            0 <= i < items@.len() ==> section_model(#[trigger] r@[i]) == section_fields(items@[i]@),
{
    let mut out: Vec<Option<Vec<Field>>> = Vec::with_capacity(items.len());
    let mut i: usize = 0;
    while i < items.len()
        invariant
            i <= items@.len(),
            out@.len() == i,
            forall|j: int|
                0 <= j < i ==> section_model(#[trigger] out@[j]) == section_fields(items@[j]@),
        decreases items@.len() - i,
    {
        out.push(
            match &items[i] {
                Nbt::Compound(entries) => Some(fields(entries)),
                _ => None,
            },
        );
        i += 1;
    }
    out
}

/// A label, and a number in brackets behind it.
pub open spec fn labelled(label: Seq<char>, n: int) -> Seq<char> {
    label + "("@ + decimal(n) + ")"@
}

/// A shape as text. A compound's count is left out where `counted` is not set. Floating-point
/// numbers and texts are not put into words here.
pub open spec fn shape_words(shape: ShapeModel, counted: bool) -> Option<Seq<char>> {
    match shape {
        ShapeModel::Compound(n) => Some(
            if counted {
                labelled("Compound"@, n as int)
            } else {
                "Compound"@
            },
        ),
        ShapeModel::List(n) => Some(labelled("List"@, n as int)),
        ShapeModel::LongArray(n) => Some(labelled("LongArray"@, n as int)),
        ShapeModel::ByteArray(n) => Some(labelled("ByteArray"@, n as int)),
        ShapeModel::IntArray(n) => Some(labelled("IntArray"@, n as int)),
        ShapeModel::Single(NbtModel::Byte(v)) => Some(labelled("Byte"@, v as int)),
        ShapeModel::Single(NbtModel::Short(v)) => Some(labelled("Short"@, v as int)),
        ShapeModel::Single(NbtModel::Int(v)) => Some(labelled("Int"@, v as int)),
        ShapeModel::Single(NbtModel::Long(v)) => Some(labelled("Long"@, v as int)),
        _ => None,
    }
}

fn count_text(label: &str, n: usize) -> (r: String)
    ensures
        r@ == labelled(label@, n as int),
{
    let mut out = label.to_owned();
    out.append("(");
    push_unsigned(&mut out, n as u64);
    out.append(")");
    out
}

fn number_text(label: &str, n: i64) -> (r: String)
    ensures
        r@ == labelled(label@, n as int),
{
    let mut out = label.to_owned();
    out.append("(");
    push_signed(&mut out, n);
    out.append(")");
    out
}

/// A shape as text, where it is no floating-point number and no text.
pub fn shape_text(shape: &Shape, counted: bool) -> (r: Option<String>)
    ensures
        match (r, shape_words(shape@, counted)) {
            (Some(s), Some(expected)) => s@ == expected,
            (None, None) => true,
            _ => false,
        },
{
    match shape {
        Shape::Compound(n) => if counted {
            Some(count_text("Compound", *n))
        } else {
            Some("Compound".to_owned())
        },
        Shape::List(n) => Some(count_text("List", *n)),
        Shape::LongArray(n) => Some(count_text("LongArray", *n)),
        Shape::ByteArray(n) => Some(count_text("ByteArray", *n)),
        Shape::IntArray(n) => Some(count_text("IntArray", *n)),
        Shape::Byte(v) => Some(number_text("Byte", *v as i64)),
        Shape::Short(v) => Some(number_text("Short", *v as i64)),
        Shape::Int(v) => Some(number_text("Int", *v as i64)),
        Shape::Long(v) => Some(number_text("Long", *v)),
        _ => None,
    }
}

} // verus!
