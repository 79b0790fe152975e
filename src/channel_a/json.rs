//! JSON value trees: the library's own representation, its model, parsing
//! through serde_json, and the compact canonical encoding.

use vstd::prelude::*;

use crate::channel_a::order::distinct_by_key;

verus! {

broadcast use vstd::seq::group_seq_axioms, vstd::std_specs::vec::group_vec_axioms;

/// Mathematical model of a JSON value; strings are their UTF-8 bytes.
pub enum JsonValue {
    Null,
    Bool(bool),
    Number(Seq<u8>),
    Str(Seq<u8>),
    Array(Seq<JsonValue>),
    Object(Seq<(Seq<u8>, JsonValue)>),
}

/// A JSON value tree.
pub enum Json {
    Null,
    Bool(bool),
    /// The number's text, as the parser prints it.
    Number(String),
    Str(String),
    Array(Vec<Json>),
    /// Fields in stored order.
    Object(Vec<(String, Json)>),
}

/// The UTF-8 bytes of a string.
pub open spec fn bytes_of(s: String) -> Seq<u8> {
    vstd::utf8::encode_utf8(s@)
}

/// The model of a tree.
pub open spec fn json_view(j: Json) -> JsonValue
    decreases j,
{
    match j {
        Json::Null => JsonValue::Null,
        Json::Bool(b) => JsonValue::Bool(b),
        Json::Number(t) => JsonValue::Number(bytes_of(t)),
        Json::Str(s) => JsonValue::Str(bytes_of(s)),
        Json::Array(items) => JsonValue::Array(items_view(items@)),
        Json::Object(fields) => JsonValue::Object(fields_view(fields@)),
    }
}

pub open spec fn items_view(items: Seq<Json>) -> Seq<JsonValue>
    decreases items,
{
    if items.len() == 0 {
        Seq::empty()
    } else {
        items_view(items.drop_last()).push(json_view(items.last()))
    }
}

pub open spec fn fields_view(fields: Seq<(String, Json)>) -> Seq<(Seq<u8>, JsonValue)>
    decreases fields,
{
    if fields.len() == 0 {
        Seq::empty()
    } else {
        fields_view(fields.drop_last()).push((bytes_of(fields.last().0), json_view(fields.last().1)))
    }
}

} // verus!

verus! {

/// No object of the tree, at any depth, has the same key twice.
pub open spec fn distinct_keys(v: JsonValue) -> bool
    decreases v,
{
    match v {
        JsonValue::Array(items) => distinct_keys_items(items),
        JsonValue::Object(fields) => distinct_by_key(fields) && distinct_keys_fields(fields),
        _ => true,
    }
}

pub open spec fn distinct_keys_items(items: Seq<JsonValue>) -> bool
    decreases items,
{
    items.len() == 0 || (distinct_keys_items(items.drop_last()) && distinct_keys(items.last()))
}

pub open spec fn distinct_keys_fields(fields: Seq<(Seq<u8>, JsonValue)>) -> bool
    decreases fields,
{
    fields.len() == 0 || (distinct_keys_fields(fields.drop_last()) && distinct_keys(
        fields.last().1,
    ))
}

pub proof fn lemma_distinct_keys_items(items: Seq<JsonValue>)
    ensures
        distinct_keys_items(items) <==> forall|i: int|
            0 <= i < items.len() ==> #[trigger] distinct_keys(items[i]),
    decreases items.len(),
{
    if items.len() > 0 {
        lemma_distinct_keys_items(items.drop_last());
        if distinct_keys_items(items) {
            assert forall|i: int| 0 <= i < items.len() implies #[trigger] distinct_keys(items[i]) by {
                if i < items.len() - 1 {
                    assert(items.drop_last()[i] == items[i]);
                    assert(distinct_keys(items.drop_last()[i]));
                }
            }
        }
        if forall|i: int| 0 <= i < items.len() ==> #[trigger] distinct_keys(items[i]) {
            assert forall|i: int| 0 <= i < items.len() - 1 implies #[trigger] distinct_keys(items.drop_last()[i]) by {
                assert(distinct_keys(items[i]));
            }
            assert(distinct_keys(items[items.len() - 1]));
            assert(distinct_keys_items(items.drop_last()));
        }
    }
}

pub proof fn lemma_distinct_keys_fields(fields: Seq<(Seq<u8>, JsonValue)>)
    ensures
        distinct_keys_fields(fields) <==> forall|i: int|
            0 <= i < fields.len() ==> #[trigger] distinct_keys(fields[i].1),
    decreases fields.len(),
{
    if fields.len() > 0 {
        lemma_distinct_keys_fields(fields.drop_last());
        if distinct_keys_fields(fields) {
            assert forall|i: int| 0 <= i < fields.len() implies #[trigger] distinct_keys(fields[i].1) by {
                if i < fields.len() - 1 {
                    assert(fields.drop_last()[i] == fields[i]);
                    assert(distinct_keys(fields.drop_last()[i].1));
                }
            }
        }
        if forall|i: int| 0 <= i < fields.len() ==> #[trigger] distinct_keys(fields[i].1) {
            assert forall|i: int| 0 <= i < fields.len() - 1 implies #[trigger] distinct_keys(fields.drop_last()[i].1) by {
                assert(distinct_keys(fields[i].1));
            }
            assert(distinct_keys(fields[fields.len() - 1].1));
            assert(distinct_keys_fields(fields.drop_last()));
        }
    }
}

/// The view of stored array elements, index by index.
pub proof fn lemma_items_view(items: Seq<Json>)
    ensures
        items_view(items).len() == items.len(),
        forall|i: int| 0 <= i < items.len() ==> #[trigger] items_view(items)[i] == json_view(items[i]),
    decreases items.len(),
{
    if items.len() > 0 {
        lemma_items_view(items.drop_last());
    }
}

/// The view of stored object fields, index by index.
pub proof fn lemma_fields_view(fields: Seq<(String, Json)>)
    ensures
        fields_view(fields).len() == fields.len(),
        forall|i: int| 0 <= i < fields.len() ==> #[trigger] fields_view(fields)[i] == (bytes_of(fields[i].0), json_view(fields[i].1)),
    decreases fields.len(),
{
    if fields.len() > 0 {
        lemma_fields_view(fields.drop_last());
    }
}

impl View for Json {
    type V = JsonValue;

    open spec fn view(&self) -> JsonValue {
        json_view(*self)
    }
}

/// The tree that serde_json reads from a text, or `None` where it rejects the text.
pub uninterp spec fn json_parse(text: Seq<char>) -> Option<JsonValue>;

/// serde_json's parse error, carried through unopened.
#[verifier::external_type_specification]
#[verifier::external_body]
pub struct ExJsonError(serde_json::Error);

/// serde_json's value tree, which only the conversion below opens.
#[verifier::external_type_specification]
#[verifier::external_body]
pub struct ExJsonValue(serde_json::Value);

/// Relies on `serde_json::from_str::<serde_json::Value>`: what it reads depends on
/// the text alone, and the fields of an object are the entries of a
/// `serde_json::Map`, so no key occurs twice in one object.
#[verifier::external_body]
pub(crate) fn parse_json(text: &str) -> (r: Result<Json, serde_json::Error>)
    ensures
        match r {
            Ok(j) => json_parse(text@) == Some(j@) && distinct_keys(j@),
            Err(_) => json_parse(text@) is None,
        },
{
    serde_json::from_str::<serde_json::Value>(text).map(json_from_serde)
}

/// Relies on the variants of `serde_json::Value` and on `serde_json::Number`'s
/// `Display`, which prints a number as serde_json serializes it: moves a parsed
/// value into the library's tree, variant for variant, fields in the map's order.
#[verifier::external_body]
fn json_from_serde(v: serde_json::Value) -> Json {
    match v {
        serde_json::Value::Null => Json::Null,
        serde_json::Value::Bool(b) => Json::Bool(b),
        serde_json::Value::Number(n) => Json::Number(n.to_string()),
        serde_json::Value::String(s) => Json::Str(s),
        serde_json::Value::Array(a) => Json::Array(a.into_iter().map(json_from_serde).collect()),
        serde_json::Value::Object(m) => Json::Object(
            m.into_iter().map(|(k, v)| (k, json_from_serde(v))).collect(),
        ),
    }
}

// ---------------------------------------------------------------------------
// Compact encoding: no whitespace, strings escaped as serde_json escapes them.
// ---------------------------------------------------------------------------

/// Lower-case hexadecimal digit of a value below 16.
pub open spec fn hex_digit(n: int) -> u8 {
    if n < 10 {
        (48 + n) as u8
    } else {
        (87 + n) as u8
    }
}

/// Escape sequence of one byte of a string: quote, backslash and control bytes
/// are escaped, every other byte (UTF-8 continuation bytes included) is kept.
pub open spec fn escape_byte(b: u8) -> Seq<u8> {
    if b == 0x22 {
        seq![0x5Cu8, 0x22u8]
    } else if b == 0x5C {
        seq![0x5Cu8, 0x5Cu8]
    } else if b == 0x08 {
        seq![0x5Cu8, 0x62u8]
    } else if b == 0x0C {
        seq![0x5Cu8, 0x66u8]
    } else if b == 0x0A {
        seq![0x5Cu8, 0x6Eu8]
    } else if b == 0x0D {
        seq![0x5Cu8, 0x72u8]
    } else if b == 0x09 {
        seq![0x5Cu8, 0x74u8]
    } else if b < 0x20 {
        seq![0x5Cu8, 0x75u8, 0x30u8, 0x30u8, hex_digit(b as int / 16), hex_digit(b as int % 16)]
    } else {
        seq![b]
    }
}

pub open spec fn escape(s: Seq<u8>) -> Seq<u8>
    decreases s.len(),
{
    if s.len() == 0 {
        Seq::empty()
    } else {
        escape(s.drop_last()) + escape_byte(s.last())
    }
}

/// A string literal: the escaped bytes between double quotes.
pub open spec fn quote(s: Seq<u8>) -> Seq<u8> {
    seq![0x22u8] + escape(s) + seq![0x22u8]
}

/// The compact encoding of a JSON value.
pub open spec fn encode(v: JsonValue) -> Seq<u8>
    decreases v,
{
    match v {
        JsonValue::Null => seq![0x6Eu8, 0x75u8, 0x6Cu8, 0x6Cu8],
        JsonValue::Bool(b) => if b {
            seq![0x74u8, 0x72u8, 0x75u8, 0x65u8]
        } else {
            seq![0x66u8, 0x61u8, 0x6Cu8, 0x73u8, 0x65u8]
        },
        JsonValue::Number(t) => t,
        JsonValue::Str(s) => quote(s),
        JsonValue::Array(items) => seq![0x5Bu8] + encode_items(items) + seq![0x5Du8],
        JsonValue::Object(fields) => seq![0x7Bu8] + encode_fields(fields) + seq![0x7Du8],
    }
}

/// Array elements separated by commas.
pub open spec fn encode_items(items: Seq<JsonValue>) -> Seq<u8>
    decreases items,
{
    if items.len() == 0 {
        Seq::empty()
    } else if items.len() == 1 {
        encode(items[0])
    } else {
        encode_items(items.drop_last()) + seq![0x2Cu8] + encode(items.last())
    }
}

/// Object fields `"key":value` separated by commas.
pub open spec fn encode_fields(fields: Seq<(Seq<u8>, JsonValue)>) -> Seq<u8>
    decreases fields,
{
    if fields.len() == 0 {
        Seq::empty()
    } else if fields.len() == 1 {
        quote(fields[0].0) + seq![0x3Au8] + encode(fields[0].1)
    } else {
        encode_fields(fields.drop_last()) + seq![0x2Cu8] + quote(fields.last().0) + seq![0x3Au8]
            + encode(fields.last().1)
    }
}

fn push_escaped_byte(b: u8, out: &mut Vec<u8>)
    ensures
        final(out)@ == old(out)@ + escape_byte(b),
{
    if b == 0x22 || b == 0x5C {
        out.push(0x5C);
        out.push(b);
    } else if b == 0x08 {
        out.push(0x5C);
        out.push(0x62);
    } else if b == 0x0C {
        out.push(0x5C);
        out.push(0x66);
    } else if b == 0x0A {
        out.push(0x5C);
        out.push(0x6E);
    } else if b == 0x0D {
        out.push(0x5C);
        out.push(0x72);
    } else if b == 0x09 {
        out.push(0x5C);
        out.push(0x74);
    } else if b < 0x20 {
        out.push(0x5C);
        out.push(0x75);
        out.push(0x30);
        out.push(0x30);
        let hi: u8 = b / 16;
        let lo: u8 = b % 16;
        out.push(if hi < 10 { 48 + hi } else { 87 + hi });
        out.push(if lo < 10 { 48 + lo } else { 87 + lo });
    } else {
        out.push(b);
    }
    assert(final(out)@ =~= old(out)@ + escape_byte(b));
}

fn push_quoted(s: &String, out: &mut Vec<u8>)
    ensures
        final(out)@ == old(out)@ + quote(bytes_of(*s)),
{
    let bytes = s.as_str().as_bytes();
    out.push(0x22);
    let ghost start = out@;
    let n = bytes.len();
    let mut i: usize = 0;
    while i < n
        invariant
            n == bytes@.len(),
            bytes@ == bytes_of(*s),
            i <= n,
            out@ == start + escape(bytes@.take(i as int)),
        decreases n - i,
    {
        push_escaped_byte(bytes[i], out);
        assert(bytes@.take(i + 1).drop_last() =~= bytes@.take(i as int));
        i = i + 1;
    }
    assert(bytes@.take(n as int) =~= bytes@);
    out.push(0x22);
    assert(out@ =~= old(out)@ + quote(bytes_of(*s)));
}

/// Appends the compact encoding of `j` to `out`.
pub fn write_json(j: &Json, out: &mut Vec<u8>)
    ensures
        final(out)@ == old(out)@ + encode(j@),
    decreases j,
{
    match j {
        Json::Null => {
            out.push(0x6E);
            out.push(0x75);
            out.push(0x6C);
            out.push(0x6C);
        },
        Json::Bool(b) => {
            if *b {
                out.push(0x74);
                out.push(0x72);
                out.push(0x75);
                out.push(0x65);
            } else {
                out.push(0x66);
                out.push(0x61);
                out.push(0x6C);
                out.push(0x73);
                out.push(0x65);
            }
        },
        Json::Number(t) => {
            let bytes = t.as_str().as_bytes();
            let n = bytes.len();
            let ghost start = out@;
            let mut i: usize = 0;
            while i < n
                invariant
                    n == bytes@.len(),
                    i <= n,
                    out@ == start + bytes@.take(i as int),
                decreases n - i,
            {
                out.push(bytes[i]);
                assert(bytes@.take(i + 1) =~= bytes@.take(i as int).push(bytes@[i as int]));
                i = i + 1;
            }
            assert(bytes@.take(n as int) =~= bytes@);
        },
        Json::Str(s) => {
            push_quoted(s, out);
        },
        Json::Array(items) => {
            proof {
                lemma_items_view(items@);
            }
            let ghost views = items_view(items@);
            out.push(0x5B);
            let ghost start = out@;
            let n = items.len();
            let mut i: usize = 0;
            while i < n
                invariant
                    n == items@.len(),
                    *j == Json::Array(*items),
                    views == items_view(items@),
                    views.len() == n,
                    forall|k: int| 0 <= k < n ==> #[trigger] views[k] == json_view(items@[k]),
                    i <= n,
                    out@ == start + encode_items(views.take(i as int)),
                decreases n - i,
            {
                if i > 0 {
                    out.push(0x2C);
                }
                proof {
                    assert(decreases_to!(*j => (*j)->Array_0));
                    assert(decreases_to!(*items => items@));
                    assert(decreases_to!(items@ => items@[i as int]));
                }
                write_json(&items[i], out);
                assert(views.take(i + 1).drop_last() =~= views.take(i as int));
                assert(views.take(i + 1)[0] == views[0]);
                i = i + 1;
            }
            assert(views.take(n as int) =~= views);
            out.push(0x5D);
            assert(out@ =~= old(out)@ + encode(j@));
        },
        Json::Object(fields) => {
            proof {
                lemma_fields_view(fields@);
            }
            let ghost views = fields_view(fields@);
            out.push(0x7B);
            let ghost start = out@;
            let n = fields.len();
            let mut i: usize = 0;
            while i < n
                invariant
                    n == fields@.len(),
                    *j == Json::Object(*fields),
                    views == fields_view(fields@),
                    views.len() == n,
                    forall|k: int| 0 <= k < n ==> #[trigger] views[k] == (bytes_of(fields@[k].0), json_view(fields@[k].1)),
                    i <= n,
                    out@ == start + encode_fields(views.take(i as int)),
                decreases n - i,
            {
                if i > 0 {
                    out.push(0x2C);
                }
                push_quoted(&fields[i].0, out);
                out.push(0x3A);
                proof {
                    assert(decreases_to!(*j => (*j)->Object_0));
                    assert(decreases_to!(*fields => fields@));
                    assert(decreases_to!(fields@ => fields@[i as int]));
                    assert(decreases_to!(fields@[i as int] => fields@[i as int].1));
                }
                write_json(&fields[i].1, out);
                assert(views.take(i + 1).drop_last() =~= views.take(i as int));
                assert(views.take(i + 1)[0] == views[0]);
                i = i + 1;
            }
            assert(views.take(n as int) =~= views);
            out.push(0x7D);
            assert(out@ =~= old(out)@ + encode(j@));
        },
    }
}

} // verus!
