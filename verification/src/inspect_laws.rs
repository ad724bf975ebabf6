//! Laws of the look into one chunk.
use vstd::prelude::*;
use vstd::utf8::encode_utf8;

use crate::anvil::{anvil_slot, decompressed, ExternalChunk};
use crate::anvil_laws::chunk_in_its_sectors_is_read;
use crate::archive::Fault;
use crate::blockhash::sorted_keys;
use crate::blockhash_laws::sorted_keys_listed;
use crate::bytes_laws::{four, value_is_the_weighted_sum};
use crate::inspect::{chunk_payload, field_models, fields_of, shape_of, shape_words, shows, Overview, ShapeModel};
use crate::nbt::NbtModel;
use crate::order::{byte_order, bytes_before};
use crate::text::decimal;

verus! {

/// What is looked into lies where the location says: three bytes of sector and one of sector
/// count, then at the sector four bytes of length, which counts the type byte, the type byte and
/// the data. A slot without a location or without sectors is empty.
pub proof fn payload_lies_at_its_location(d: Seq<u8>, i: int, s: int)
    requires
        0 <= i < 1024,
        d.len() >= 4096,
        s == d[4 * i] * 65536 + d[4 * i + 1] * 256 + d[4 * i + 2],
    ensures
        s == 0 || d[4 * i + 3] == 0 ==> chunk_payload(d, i) == Ok::<Option<Seq<u8>>, Fault>(None),
        s > 0 && d[4 * i + 3] > 0 && 4096 * s + 5 > d.len() ==> chunk_payload(d, i) == Err::<
            Option<Seq<u8>>,
            Fault,
        >(Fault::Truncated),
        s > 0 && d[4 * i + 3] > 0 && 4096 * s + 5 <= d.len() ==> {
            let length = four(d, 4096 * s);
            let kind = d[4096 * s + 4];
            let body = d.subrange(4096 * s + 5, 4096 * s + 4 + length);
            &&& length == 0 || 4096 * s + 4 + length > d.len() ==> chunk_payload(d, i) == Err::<
                Option<Seq<u8>>,
                Fault,
            >(Fault::Truncated)
            &&& length > 0 && 4096 * s + 4 + length <= d.len() ==> {
                &&& kind == 3 ==> chunk_payload(d, i) == Ok::<Option<Seq<u8>>, Fault>(Some(body))
                &&& kind == 0 || kind > 3 ==> chunk_payload(d, i) == Err::<Option<Seq<u8>>, Fault>(
                    Fault::UnknownCompression(kind),
                )
                &&& kind == 1 || kind == 2 ==> match decompressed(body, kind) {
                    Ok(bytes) => chunk_payload(d, i) == Ok::<Option<Seq<u8>>, Fault>(Some(bytes)),
                    Err(fault) => chunk_payload(d, i) == Err::<Option<Seq<u8>>, Fault>(fault),
                }
            }
        },
{
    value_is_the_weighted_sum(d, 4 * i);
    if s > 0 && 4096 * s + 5 <= d.len() {
        value_is_the_weighted_sum(d, 4096 * s);
    }
}

/// A file without its location table cannot be looked into.
pub proof fn short_file_has_no_payload(d: Seq<u8>, i: int)
    requires
        d.len() < 4096,
    ensures
        chunk_payload(d, i) == Err::<Option<Seq<u8>>, Fault>(Fault::Truncated),
{
}

/// The look into a chunk and the hashing of its region see the same bytes, where the chunk lies in
/// its sectors and is compressed in a way that both know.
pub proof fn look_sees_what_is_hashed(
    d: Seq<u8>,
    region: (int, int),
    externals: Seq<ExternalChunk>,
    i: int,
    s: int,
    n: int,
)
    requires
        crate::anvil_laws::located(d, i, s, n),
        4096 * s + 5 <= d.len(),
        1 <= four(d, 4096 * s) <= 4096 * n - 5,
        4096 * s + 4 + four(d, 4096 * s) <= d.len(),
        1 <= d[4096 * s + 4] <= 3,
    ensures
        match anvil_slot(d, region, externals, i) {
            Ok(bytes) => chunk_payload(d, i) == Ok::<Option<Seq<u8>>, Fault>(Some(bytes)),
            Err(fault) => chunk_payload(d, i) == Err::<Option<Seq<u8>>, Fault>(fault),
        },
{
    chunk_in_its_sectors_is_read(d, region, externals, i, s, n, four(d, 4096 * s));
    payload_lies_at_its_location(d, i, s);
}

/// The fields of a compound are all of its fields, each once, in the order of the bytes of their
/// names, and each with the shape of its own value.
pub proof fn fields_are_all_listed(m: Map<Seq<u8>, NbtModel>, k: Seq<u8>, s: ShapeModel)
    requires
        m.dom().finite(),
    ensures
        fields_of(m).len() == m.dom().len(),
        fields_of(m).contains((k, s)) <==> m.dom().contains(k) && s == shape_of(m[k]),
        forall|i: int, j: int|
            0 <= i < j < fields_of(m).len() ==> bytes_before((#[trigger] fields_of(m)[i]).0, (#[trigger] fields_of(
                m,
            )[j]).0),
{
    sorted_keys_listed(m);
    let keys = sorted_keys(m);
    let all = fields_of(m);
    let before = byte_order();
    assert forall|i: int, j: int| 0 <= i < j < all.len() implies bytes_before(
        (#[trigger] all[i]).0,
        (#[trigger] all[j]).0,
    ) by {
        assert(before(keys[i], keys[j]));
    }
    if all.contains((k, s)) {
        let i = choose|i: int| 0 <= i < all.len() && all[i] == (k, s);
        assert(keys[i] == k);
        assert(keys.contains(k));
    }
    if m.dom().contains(k) && s == shape_of(m[k]) {
        assert(keys.contains(k));
        let i = choose|i: int| 0 <= i < keys.len() && keys[i] == k;
        assert(all[i] == (k, s));
    }
}

/// The shape of a value: how many entries or items it has, or the value itself.
pub proof fn shape_is_the_count_or_the_value(
    m: Map<Seq<u8>, NbtModel>,
    items: Seq<NbtModel>,
    a: Seq<i8>,
    b: Seq<i32>,
    c: Seq<i64>,
    v: NbtModel,
)
    ensures
        shape_of(NbtModel::Compound(m)) == ShapeModel::Compound(m.dom().len()),
        shape_of(NbtModel::List(items)) == ShapeModel::List(items.len()),
        shape_of(NbtModel::ByteArray(a)) == ShapeModel::ByteArray(a.len()),
        shape_of(NbtModel::IntArray(b)) == ShapeModel::IntArray(b.len()),
        shape_of(NbtModel::LongArray(c)) == ShapeModel::LongArray(c.len()),
        !(v is Compound || v is List || v is ByteArray || v is IntArray || v is LongArray) ==> shape_of(v)
            == ShapeModel::Single(v),
{
}

/// A shape in words: its kind, and behind it in brackets the count or the number. Floating-point
/// numbers and texts are not put into words.
pub proof fn words_of_a_shape(n: nat, a: i8, b: i16, c: i32, d: i64, e: u32, f: u64, g: Seq<u8>, counted: bool)
    ensures
        shape_words(ShapeModel::Compound(n), true) == Some("Compound"@ + "("@ + decimal(n as int) + ")"@),
        shape_words(ShapeModel::Compound(n), false) == Some("Compound"@),
        shape_words(ShapeModel::List(n), counted) == Some("List"@ + "("@ + decimal(n as int) + ")"@),
        shape_words(ShapeModel::ByteArray(n), counted) == Some("ByteArray"@ + "("@ + decimal(n as int) + ")"@),
        shape_words(ShapeModel::IntArray(n), counted) == Some("IntArray"@ + "("@ + decimal(n as int) + ")"@),
        shape_words(ShapeModel::LongArray(n), counted) == Some("LongArray"@ + "("@ + decimal(n as int) + ")"@),
        shape_words(ShapeModel::Single(NbtModel::Byte(a)), counted) == Some(
            "Byte"@ + "("@ + decimal(a as int) + ")"@,
        ),
        shape_words(ShapeModel::Single(NbtModel::Short(b)), counted) == Some(
            "Short"@ + "("@ + decimal(b as int) + ")"@,
        ),
        shape_words(ShapeModel::Single(NbtModel::Int(c)), counted) == Some("Int"@ + "("@ + decimal(c as int) + ")"@),
        shape_words(ShapeModel::Single(NbtModel::Long(d)), counted) == Some(
            "Long"@ + "("@ + decimal(d as int) + ")"@,
        ),
        shape_words(ShapeModel::Single(NbtModel::Float(e)), counted) is None,
        shape_words(ShapeModel::Single(NbtModel::Double(f)), counted) is None,
        shape_words(ShapeModel::Single(NbtModel::String(g)), counted) is None,
{
}

/// What is shown of a chunk: the fields of its root; and where its `sections` are a list, one
/// item for each of them, with the fields of the section where it is a compound.
pub proof fn overview_shows_root_and_sections(o: Overview, m: Map<Seq<u8>, NbtModel>, i: int)
    requires
        shows(o, m),
    ensures
        field_models(o.top@) == fields_of(m),
        o.sections is Some <==> m.dom().contains(encode_utf8("sections"@)) && m[encode_utf8("sections"@)] is List,
        o.sections matches Some(shown) ==> {
            let items = m[encode_utf8("sections"@)]->List_0;
            &&& shown@.len() == items.len()
            &&& 0 <= i < items.len() ==> (shown@[i] is Some <==> items[i] is Compound)
            &&& 0 <= i < items.len() && items[i] is Compound ==> field_models(shown@[i]->Some_0@) == fields_of(
                items[i]->Compound_0,
            )
        },
{
    if let Some(shown) = o.sections {
        let items = m[encode_utf8("sections"@)]->List_0;
        if 0 <= i < items.len() {
            assert(crate::inspect::section_model(shown@[i]) == crate::inspect::section_fields(items[i]));
        }
    }
}

/// The name and the shape of a field that is shown are those that stand for it.
pub proof fn field_is_its_name_and_shape(o: Overview, i: int)
    requires
        0 <= i < o.top@.len(),
    ensures
        field_models(o.top@).len() == o.top@.len(),
        field_models(o.top@)[i].0 == o.top@[i].name@,
        field_models(o.top@)[i].1 == o.top@[i].shape@,
{
}

} // verus!
