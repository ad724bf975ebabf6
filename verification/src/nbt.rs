//! NBT trees: the library's own value type, its mathematical model, and reading one from bytes.
use fastnbt::Value;
use vstd::prelude::*;
use vstd::utf8::encode_utf8;

use crate::order::{last_map, last_map_dom, last_map_value};

verus! {

/// One NBT value.
///
/// Strings and compound keys are kept as their UTF-8 bytes, floats as their IEEE 754 bits.
/// Where a compound holds a key more than once, the last entry counts.
pub enum Nbt {
    Byte(i8),
    Short(i16),
    Int(i32),
    Long(i64),
    Float(u32),
    Double(u64),
    String(Vec<u8>),
    ByteArray(Vec<i8>),
    IntArray(Vec<i32>),
    LongArray(Vec<i64>),
    List(Vec<Nbt>),
    Compound(Vec<(Vec<u8>, Nbt)>),
}

/// The value that an [`Nbt`] stands for: a compound is a map, without an order of its keys.
#[verifier::ext_equal]
pub enum NbtModel {
    Byte(i8),
    Short(i16),
    Int(i32),
    Long(i64),
    Float(u32),
    Double(u64),
    String(Seq<u8>),
    ByteArray(Seq<i8>),
    IntArray(Seq<i32>),
    LongArray(Seq<i64>),
    List(Seq<NbtModel>),
    Compound(Map<Seq<u8>, NbtModel>),
}

/// No key occurs twice.
pub open spec fn distinct_keys(entries: Seq<(Seq<u8>, NbtModel)>) -> bool {
    forall|i: int, j: int|
        0 <= i < j < entries.len() ==> (#[trigger] entries[i]).0 != (#[trigger] entries[j]).0
}

/// What `v` stands for.
pub open spec fn model(v: Nbt) -> NbtModel
    decreases v,
{
    match v {
        Nbt::Byte(x) => NbtModel::Byte(x),
        Nbt::Short(x) => NbtModel::Short(x),
        Nbt::Int(x) => NbtModel::Int(x),
        Nbt::Long(x) => NbtModel::Long(x),
        Nbt::Float(b) => NbtModel::Float(b),
        Nbt::Double(b) => NbtModel::Double(b),
        Nbt::String(s) => NbtModel::String(s@),
        Nbt::ByteArray(a) => NbtModel::ByteArray(a@),
        Nbt::IntArray(a) => NbtModel::IntArray(a@),
        Nbt::LongArray(a) => NbtModel::LongArray(a@),
        Nbt::List(items) => NbtModel::List(item_models(items@)),
        Nbt::Compound(entries) => NbtModel::Compound(last_map(entry_models(entries@))),
    }
}

/// What the items of a list stand for.
pub open spec fn item_models(items: Seq<Nbt>) -> Seq<NbtModel>
    decreases items,
{
    Seq::new(
        items.len(),
        |i: int|
            if 0 <= i < items.len() {
                model(items[i])
            } else {
                arbitrary()
            },
    )
}

/// What the entries of a compound stand for.
pub open spec fn entry_models(entries: Seq<(Vec<u8>, Nbt)>) -> Seq<(Seq<u8>, NbtModel)>
    decreases entries,
{
    Seq::new(
        entries.len(),
        |i: int|
            if 0 <= i < entries.len() {
                (entries[i].0@, model(entries[i].1))
            } else {
                arbitrary()
            },
    )
}

impl View for Nbt {
    type V = NbtModel;

    open spec fn view(&self) -> NbtModel {
        model(*self)
    }
}

/// `fastnbt`'s own NBT value, opaque here.
#[verifier::external_type_specification]
#[verifier::external_body]
pub struct ExFastnbtValue(Value);

/// `fastnbt`'s parse error, opaque here.
#[verifier::external_type_specification]
#[verifier::external_body]
pub struct ExFastnbtError(fastnbt::error::Error);

/// What a `fastnbt::Value` holds.
pub uninterp spec fn fastnbt_tree(value: Value) -> NbtModel;

/// What `fastnbt::from_bytes` reads from `raw`: `None` where it refuses the bytes.
pub uninterp spec fn fastnbt_parsed(raw: Seq<u8>) -> Option<NbtModel>;

/// One level of a `fastnbt::Value`.
pub enum NbtNode {
    Byte(i8),
    Short(i16),
    Int(i32),
    Long(i64),
    Float(u32),
    Double(u64),
    String(String),
    ByteArray(Vec<i8>),
    IntArray(Vec<i32>),
    LongArray(Vec<i64>),
    List(Vec<Value>),
    Compound(Vec<(String, Value)>),
}

/// The trees of a list of `fastnbt` values.
pub open spec fn fastnbt_trees(items: Seq<Value>) -> Seq<NbtModel> {
    Seq::new(items.len(), |i: int| fastnbt_tree(items[i]))
}

/// The keys and trees of a list of `fastnbt` entries.
pub open spec fn fastnbt_entries(entries: Seq<(String, Value)>) -> Seq<
    (Seq<u8>, NbtModel),
> {
    Seq::new(entries.len(), |i: int| (encode_utf8(entries[i].0@), fastnbt_tree(entries[i].1)))
}

/// The tree of one level whose children are `fastnbt` values.
pub open spec fn node_tree(node: NbtNode) -> NbtModel {
    match node {
        NbtNode::Byte(x) => NbtModel::Byte(x),
        NbtNode::Short(x) => NbtModel::Short(x),
        NbtNode::Int(x) => NbtModel::Int(x),
        NbtNode::Long(x) => NbtModel::Long(x),
        NbtNode::Float(b) => NbtModel::Float(b),
        NbtNode::Double(b) => NbtModel::Double(b),
        NbtNode::String(s) => NbtModel::String(encode_utf8(s@)),
        NbtNode::ByteArray(a) => NbtModel::ByteArray(a@),
        NbtNode::IntArray(a) => NbtModel::IntArray(a@),
        NbtNode::LongArray(a) => NbtModel::LongArray(a@),
        NbtNode::List(items) => NbtModel::List(fastnbt_trees(items@)),
        NbtNode::Compound(entries) => NbtModel::Compound(last_map(fastnbt_entries(entries@))),
    }
}

/// `fastnbt::from_bytes` for a `fastnbt::Value`: the tree it yields, and whether it yields one,
/// depend on the bytes alone. It begins with the tag of the root, so that empty bytes give an
/// error. It recurses once per nesting level without a limit of its own.
#[verifier::external_body]
fn fastnbt_from_bytes(raw: &[u8]) -> (r: Result<Value, fastnbt::error::Error>)
    ensures
        match r {
            Ok(value) => fastnbt_parsed(raw@) == Some(fastnbt_tree(value)),
            Err(_) => fastnbt_parsed(raw@) is None,
        },
        raw@.len() == 0 ==> r is Err,
{
    fastnbt::from_bytes::<Value>(raw)
}

/// The variants of `fastnbt::Value`, taken apart one level deep: numbers as they are, floats as
/// their bits, arrays as their items, and the entries of a compound's hash map in whatever order
/// the map gives them, each key once.
#[verifier::external_body]
fn fastnbt_node(value: Value) -> (node: NbtNode)
    ensures
        fastnbt_tree(value) == node_tree(node),
        node matches NbtNode::Compound(entries) ==> distinct_keys(fastnbt_entries(entries@)),
{
    match value {
        Value::Byte(x) => NbtNode::Byte(x),
        Value::Short(x) => NbtNode::Short(x),
        Value::Int(x) => NbtNode::Int(x),
        Value::Long(x) => NbtNode::Long(x),
        Value::Float(x) => NbtNode::Float(x.to_bits()),
        Value::Double(x) => NbtNode::Double(x.to_bits()),
        Value::String(s) => NbtNode::String(s),
        Value::ByteArray(a) => NbtNode::ByteArray(a.into_inner()),
        Value::IntArray(a) => NbtNode::IntArray(a.into_inner()),
        Value::LongArray(a) => NbtNode::LongArray(a.into_inner()),
        Value::List(items) => NbtNode::List(items),
        Value::Compound(m) => NbtNode::Compound(m.into_iter().collect()),
    }
}

/// A copy of the UTF-8 bytes of `s`.
pub fn utf8_bytes(s: &str) -> (r: Vec<u8>)
    ensures
        r@ == encode_utf8(s@),
{
    let bytes = s.as_bytes();
    let mut out: Vec<u8> = Vec::with_capacity(bytes.len());
    let mut i: usize = 0;
    while i < bytes.len()
        invariant
            i <= bytes@.len(),
            out@ == bytes@.take(i as int),
        decreases bytes@.len() - i,
    {
        out.push(bytes[i]);
        i += 1;
    }
    assert(bytes@.take(i as int) =~= bytes@);
    out
}

/// Rebuilds a `fastnbt` value as an [`Nbt`].
pub fn nbt_from_value(value: Value) -> (r: Nbt)
    ensures
        r@ == fastnbt_tree(value),
    decreases fastnbt_tree(value),
{
    match fastnbt_node(value) {
        NbtNode::Byte(x) => Nbt::Byte(x),
        NbtNode::Short(x) => Nbt::Short(x),
        NbtNode::Int(x) => Nbt::Int(x),
        NbtNode::Long(x) => Nbt::Long(x),
        NbtNode::Float(b) => Nbt::Float(b),
        NbtNode::Double(b) => Nbt::Double(b),
        NbtNode::String(s) => Nbt::String(utf8_bytes(s.as_str())),
        NbtNode::ByteArray(a) => Nbt::ByteArray(a),
        NbtNode::IntArray(a) => Nbt::IntArray(a),
        NbtNode::LongArray(a) => Nbt::LongArray(a),
        NbtNode::List(items) => {
            let ghost all = items@;
            let mut out: Vec<Nbt> = Vec::new();
            for item in it: items
                invariant
                    fastnbt_tree(value) == NbtModel::List(fastnbt_trees(all)),
                    it.seq() == all,
                    out@.len() == it.index(),
                    forall|j: int| 0 <= j < out@.len() ==> (#[trigger] out@[j])@ == fastnbt_tree(all[j]),
            {
                assert(item == all[it.index()]);
                assert(fastnbt_trees(all)[it.index()] == fastnbt_tree(item));
                assert(decreases_to!(fastnbt_tree(value) => fastnbt_tree(value)->List_0));
                out.push(nbt_from_value(item));
            }
            assert(item_models(out@) =~= fastnbt_trees(all));
            Nbt::List(out)
        },
        NbtNode::Compound(entries) => {
            let ghost all = entries@;
            let ghost pairs = fastnbt_entries(all);
            let mut out: Vec<(Vec<u8>, Nbt)> = Vec::new();
            for entry in it: entries
                invariant
                    fastnbt_tree(value) == NbtModel::Compound(last_map(pairs)),
                    pairs == fastnbt_entries(all),
                    distinct_keys(pairs),
                    it.seq() == all,
                    out@.len() == it.index(),
                    forall|j: int|
                        0 <= j < out@.len() ==> (#[trigger] out@[j]).0@ == pairs[j].0 && out@[j].1@
                            == pairs[j].1,
            {
                proof {
                    let i = it.index();
                    assert(entry == all[i]);
                    assert(pairs[i].1 == fastnbt_tree(entry.1));
                    last_map_dom(pairs);
                    last_map_value(pairs, i);
                    assert(decreases_to!(fastnbt_tree(value) => fastnbt_tree(value)->Compound_0));
                    assert(decreases_to!(last_map(pairs) => last_map(pairs)[pairs[i].0]));
                }
                out.push((utf8_bytes(entry.0.as_str()), nbt_from_value(entry.1)));
            }
            assert(entry_models(out@) =~= pairs);
            Nbt::Compound(out)
        },
    }
}

/// The NBT tree that bytes hold: empty ones hold none.
pub open spec fn nbt_in(raw: Seq<u8>) -> Option<NbtModel> {
    if raw.len() == 0 {
        None
    } else {
        fastnbt_parsed(raw)
    }
}

/// Reads the NBT tree that `raw` holds; `None` where `raw` is not NBT with a root compound.
pub fn parse_nbt(raw: &[u8]) -> (r: Option<Nbt>)
    ensures
        match r {
            Some(root) => nbt_in(raw@) == Some(root@),
            None => nbt_in(raw@) is None,
        },
        nbt_in(raw@) == fastnbt_parsed(raw@),
{
    match fastnbt_from_bytes(raw) {
        Ok(value) => Some(nbt_from_value(value)),
        Err(_) => None,
    }
}

} // verus!
