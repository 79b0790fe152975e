//! Canonical proposal representation: sorted logic bytes, normalized text, and
//! the SHA-256 hash of their concatenation.

use vstd::prelude::*;

use vstd::utf8::encode_utf8;

use crate::channel_a::json::{
    bytes_of, distinct_keys, encode, fields_view, items_view, json_parse, json_view,
    lemma_distinct_keys_fields, lemma_distinct_keys_items, lemma_fields_view, lemma_items_view,
    parse_json, write_json, Json, JsonValue,
};
use crate::channel_a::order::{
    bytes_lt, distinct_by_key, insert_by_key, lemma_sort_contents, lemma_sort_distinct,
    lemma_sort_sorted_identity, lemma_strictly_sorted_unique, sort_by_key, sorted_by_key,
};
use crate::types::{GovernanceLayer, Proposal};

verus! {

broadcast use vstd::seq::group_seq_axioms, vstd::std_specs::vec::group_vec_axioms;

// ---------------------------------------------------------------------------
// Canonical key order of a JSON tree.
// ---------------------------------------------------------------------------

/// The tree with the fields of every object in key order; arrays keep their order.
pub open spec fn sort_value(v: JsonValue) -> JsonValue
    decreases v,
{
    match v {
        JsonValue::Array(items) => JsonValue::Array(sort_items(items)),
        JsonValue::Object(fields) => JsonValue::Object(sort_by_key(sort_field_values(fields))),
        _ => v,
    }
}

pub open spec fn sort_items(items: Seq<JsonValue>) -> Seq<JsonValue>
    decreases items,
{
    if items.len() == 0 {
        Seq::empty()
    } else {
        sort_items(items.drop_last()).push(sort_value(items.last()))
    }
}

pub open spec fn sort_field_values(fields: Seq<(Seq<u8>, JsonValue)>) -> Seq<(Seq<u8>, JsonValue)>
    decreases fields,
{
    if fields.len() == 0 {
        Seq::empty()
    } else {
        sort_field_values(fields.drop_last()).push(
            (fields.last().0, sort_value(fields.last().1)),
        )
    }
}

pub proof fn lemma_sort_items(items: Seq<JsonValue>)
    ensures
        sort_items(items).len() == items.len(),
        forall|i: int| 0 <= i < items.len() ==> #[trigger] sort_items(items)[i] == sort_value(items[i]),
    decreases items.len(),
{
    if items.len() > 0 {
        lemma_sort_items(items.drop_last());
    }
}

pub proof fn lemma_sort_field_values(fields: Seq<(Seq<u8>, JsonValue)>)
    ensures
        sort_field_values(fields).len() == fields.len(),
        forall|i: int| 0 <= i < fields.len() ==> #[trigger] sort_field_values(fields)[i] == (fields[i].0, sort_value(fields[i].1)),
    decreases fields.len(),
{
    if fields.len() > 0 {
        lemma_sort_field_values(fields.drop_last());
    }
}

/// Whether the bytes of `a` come strictly before those of `b`.
fn key_lt(a: &String, b: &String) -> (r: bool)
    ensures
        r == bytes_lt(bytes_of(*a), bytes_of(*b)),
{
    let x = a.as_str().as_bytes();
    let y = b.as_str().as_bytes();
    let mut i: usize = 0;
    assert(x@.skip(0) =~= x@ && y@.skip(0) =~= y@);
    while i < x.len() && i < y.len() && x[i] == y[i]
        invariant
            x@ == bytes_of(*a),
            y@ == bytes_of(*b),
            i <= x@.len(),
            i <= y@.len(),
            bytes_lt(x@, y@) == bytes_lt(x@.skip(i as int), y@.skip(i as int)),
        decreases x@.len() - i,
    {
        assert(x@.skip(i as int).drop_first() =~= x@.skip(i + 1));
        assert(y@.skip(i as int).drop_first() =~= y@.skip(i + 1));
        i = i + 1;
    }
    if i == x.len() {
        i < y.len()
    } else if i == y.len() {
        false
    } else {
        x[i] < y[i]
    }
}

/// Inserts a field into fields sorted by key, after every field whose key is not
/// greater.
fn insert_field(out: &mut Vec<(String, Json)>, e: (String, Json))
    ensures
        fields_view(final(out)@) == insert_by_key(
            fields_view(old(out)@),
            (bytes_of(e.0), json_view(e.1)),
        ),
{
    let ghost v = fields_view(out@);
    let ghost ev = (bytes_of(e.0), json_view(e.1));
    proof {
        lemma_fields_view(out@);
    }
    let mut p: usize = out.len();
    assert(v.take(p as int) =~= v && v.skip(p as int) =~= Seq::<(Seq<u8>, JsonValue)>::empty());
    let mut moving = p > 0 && key_lt(&e.0, &out[p - 1].0);
    proof {
        if p > 0 {
            assert(v[p - 1] == (bytes_of(out@[p - 1].0), json_view(out@[p - 1].1)));
        }
    }
    while moving
        invariant
            moving ==> p > 0 && bytes_lt(ev.0, v[p - 1].0),
            !moving ==> p == 0 || !bytes_lt(ev.0, v[p - 1].0),
            p <= out@.len(),
            ev == (bytes_of(e.0), json_view(e.1)),
            v == fields_view(out@),
            v.len() == out@.len(),
            forall|k: int| 0 <= k < out@.len() ==> #[trigger] v[k] == (bytes_of(out@[k].0), json_view(out@[k].1)),
            insert_by_key(v, ev) == insert_by_key(v.take(p as int), ev) + v.skip(p as int),
        decreases p,
    {
        assert(v.take(p as int).last() == v[p - 1]);
        assert(v.take(p as int).drop_last() =~= v.take(p - 1));
        assert(insert_by_key(v.take(p as int), ev) == insert_by_key(v.take(p - 1), ev).push(v[p - 1]));
        assert(insert_by_key(v.take(p - 1), ev).push(v[p - 1]) + v.skip(p as int) =~= insert_by_key(v.take(p - 1), ev) + v.skip(p - 1));
        p = p - 1;
        moving = p > 0 && key_lt(&e.0, &out[p - 1].0);
        proof {
            if p > 0 {
                assert(v[p - 1] == (bytes_of(out@[p - 1].0), json_view(out@[p - 1].1)));
            }
        }
    }
    let ghost before = out@;
    out.insert(p, e);
    proof {
        lemma_fields_view(out@);
        assert(insert_by_key(v.take(p as int), ev) =~= v.take(p as int).push(ev));
        assert(fields_view(out@) =~= v.take(p as int).push(ev) + v.skip(p as int));
    }
}

/// Rewrites a tree so that the fields of every object appear in strict byte order
/// of their keys; arrays keep their element order and scalars are unchanged.
pub fn sort_json_keys(j: &Json) -> (r: Json)
    ensures
        r@ == sort_value(j@),
    decreases j,
{
    match j {
        Json::Null => Json::Null,
        Json::Bool(b) => Json::Bool(*b),
        Json::Number(t) => Json::Number(t.clone()),
        Json::Str(s) => Json::Str(s.clone()),
        Json::Array(items) => {
            proof {
                lemma_items_view(items@);
            }
            let ghost views = items_view(items@);
            let mut out: Vec<Json> = Vec::new();
            let n = items.len();
            let mut i: usize = 0;
            while i < n
                invariant
                    n == items@.len(),
                    *j == Json::Array(*items),
                    views == items_view(items@),
                    views.len() == n,
                    forall|k: int| 0 <= k < n ==> #[trigger] views[k] == json_view(items@[k]),
                    i <= n,
                    items_view(out@) == sort_items(views.take(i as int)),
                decreases n - i,
            {
                proof {
                    assert(decreases_to!(*j => (*j)->Array_0));
                    assert(decreases_to!(*items => items@));
                    assert(decreases_to!(items@ => items@[i as int]));
                }
                let sorted = sort_json_keys(&items[i]);
                let ghost prev = out@;
                out.push(sorted);
                assert(out@.drop_last() =~= prev);
                assert(views.take(i + 1).drop_last() =~= views.take(i as int));
                i = i + 1;
            }
            assert(views.take(n as int) =~= views);
            Json::Array(out)
        },
        Json::Object(fields) => {
            proof {
                lemma_fields_view(fields@);
            }
            let ghost views = fields_view(fields@);
            let mut out: Vec<(String, Json)> = Vec::new();
            let n = fields.len();
            let mut i: usize = 0;
            while i < n
                invariant
                    n == fields@.len(),
                    *j == Json::Object(*fields),
                    views == fields_view(fields@),
                    views.len() == n,
                    forall|k: int| 0 <= k < n ==> #[trigger] views[k] == (bytes_of(fields@[k].0), json_view(fields@[k].1)),
                    i <= n,
                    fields_view(out@) == sort_by_key(sort_field_values(views.take(i as int))),
                decreases n - i,
            {
                proof {
                    assert(decreases_to!(*j => (*j)->Object_0));
                    assert(decreases_to!(*fields => fields@));
                    assert(decreases_to!(fields@ => fields@[i as int]));
                    assert(decreases_to!(fields@[i as int] => fields@[i as int].1));
                }
                let sorted = sort_json_keys(&fields[i].1);
                let key = fields[i].0.clone();
                insert_field(&mut out, (key, sorted));
                assert(views.take(i + 1).drop_last() =~= views.take(i as int));
                assert(sort_field_values(views.take(i + 1)).drop_last() =~= sort_field_values(views.take(i as int)));
                i = i + 1;
            }
            assert(views.take(n as int) =~= views);
            Json::Object(out)
        },
    }
}

// ---------------------------------------------------------------------------
// Laws of the key sort.
// ---------------------------------------------------------------------------

/// Every object of the tree, at every depth, has its fields in key order.
pub open spec fn keys_sorted(v: JsonValue) -> bool
    decreases v,
{
    match v {
        JsonValue::Array(items) => keys_sorted_items(items),
        JsonValue::Object(fields) => sorted_by_key(fields) && keys_sorted_fields(fields),
        _ => true,
    }
}

pub open spec fn keys_sorted_items(items: Seq<JsonValue>) -> bool
    decreases items,
{
    items.len() == 0 || (keys_sorted_items(items.drop_last()) && keys_sorted(items.last()))
}

pub open spec fn keys_sorted_fields(fields: Seq<(Seq<u8>, JsonValue)>) -> bool
    decreases fields,
{
    fields.len() == 0 || (keys_sorted_fields(fields.drop_last()) && keys_sorted(fields.last().1))
}

proof fn lemma_keys_sorted_items(items: Seq<JsonValue>)
    ensures
        keys_sorted_items(items) <==> forall|i: int|
            0 <= i < items.len() ==> #[trigger] keys_sorted(items[i]),
    decreases items.len(),
{
    if items.len() > 0 {
        lemma_keys_sorted_items(items.drop_last());
        if keys_sorted_items(items) {
            assert forall|i: int| 0 <= i < items.len() implies #[trigger] keys_sorted(items[i]) by {
                if i < items.len() - 1 {
                    assert(items.drop_last()[i] == items[i]);
                    assert(keys_sorted(items.drop_last()[i]));
                }
            }
        }
        if forall|i: int| 0 <= i < items.len() ==> #[trigger] keys_sorted(items[i]) {
            assert forall|i: int| 0 <= i < items.len() - 1 implies #[trigger] keys_sorted(items.drop_last()[i]) by {
                assert(keys_sorted(items[i]));
            }
            assert(keys_sorted(items[items.len() - 1]));
            assert(keys_sorted_items(items.drop_last()));
        }
    }
}

proof fn lemma_keys_sorted_fields(fields: Seq<(Seq<u8>, JsonValue)>)
    ensures
        keys_sorted_fields(fields) <==> forall|i: int|
            0 <= i < fields.len() ==> #[trigger] keys_sorted(fields[i].1),
    decreases fields.len(),
{
    if fields.len() > 0 {
        lemma_keys_sorted_fields(fields.drop_last());
        if keys_sorted_fields(fields) {
            assert forall|i: int| 0 <= i < fields.len() implies #[trigger] keys_sorted(fields[i].1) by {
                if i < fields.len() - 1 {
                    assert(fields.drop_last()[i] == fields[i]);
                    assert(keys_sorted(fields.drop_last()[i].1));
                }
            }
        }
        if forall|i: int| 0 <= i < fields.len() ==> #[trigger] keys_sorted(fields[i].1) {
            assert forall|i: int| 0 <= i < fields.len() - 1 implies #[trigger] keys_sorted(fields.drop_last()[i].1) by {
                assert(keys_sorted(fields[i].1));
            }
            assert(keys_sorted(fields[fields.len() - 1].1));
            assert(keys_sorted_fields(fields.drop_last()));
        }
    }
}

/// The sort puts every object of the tree in key order.
pub proof fn lemma_sort_value_sorted(v: JsonValue)
    ensures
        keys_sorted(sort_value(v)),
    decreases v,
{
    match v {
        JsonValue::Array(items) => {
            lemma_sort_items(items);
            assert forall|i: int| 0 <= i < sort_items(items).len() implies #[trigger] keys_sorted(sort_items(items)[i]) by {
                assert(decreases_to!(v => items));
                lemma_sort_value_sorted(items[i]);
            }
            lemma_keys_sorted_items(sort_items(items));
        },
        JsonValue::Object(fields) => {
            let x = sort_field_values(fields);
            lemma_sort_field_values(fields);
            lemma_sort_contents(x);
            let r = sort_by_key(x);
            assert forall|i: int| 0 <= i < r.len() implies #[trigger] keys_sorted(r[i].1) by {
                assert(r.contains(r[i]));
                assert(x.contains(r[i]));
                let k = choose|k: int| 0 <= k < x.len() && x[k] == r[i];
                assert(decreases_to!(v => fields));
                assert(decreases_to!(fields => fields[k]));
                lemma_sort_value_sorted(fields[k].1);
            }
            lemma_keys_sorted_fields(r);
        },
        _ => {},
    }
}

/// Re-sorting a tree whose objects are already in key order changes nothing.
pub proof fn lemma_sort_keeps_sorted_tree(v: JsonValue)
    requires
        keys_sorted(v),
    ensures
        sort_value(v) == v,
    decreases v,
{
    match v {
        JsonValue::Array(items) => {
            lemma_sort_items(items);
            lemma_keys_sorted_items(items);
            assert forall|i: int| 0 <= i < items.len() implies #[trigger] sort_items(items)[i] == items[i] by {
                assert(decreases_to!(v => items));
                lemma_sort_keeps_sorted_tree(items[i]);
            }
            assert(sort_items(items) =~= items);
        },
        JsonValue::Object(fields) => {
            lemma_sort_field_values(fields);
            lemma_keys_sorted_fields(fields);
            assert forall|i: int| 0 <= i < fields.len() implies #[trigger] sort_field_values(fields)[i] == fields[i] by {
                assert(decreases_to!(v => fields));
                assert(decreases_to!(fields => fields[i]));
                lemma_sort_keeps_sorted_tree(fields[i].1);
            }
            assert(sort_field_values(fields) =~= fields);
            lemma_sort_sorted_identity(fields);
        },
        _ => {},
    }
}

/// Sorting twice gives what sorting once gives.
pub proof fn lemma_sort_idempotent(v: JsonValue)
    ensures
        sort_value(sort_value(v)) == sort_value(v),
{
    lemma_sort_value_sorted(v);
    lemma_sort_keeps_sorted_tree(sort_value(v));
}

/// A JSON value with the order of object fields forgotten.
pub enum JsonShape {
    Null,
    Bool(bool),
    Number(Seq<u8>),
    Str(Seq<u8>),
    Array(Seq<JsonShape>),
    Object(Map<Seq<u8>, JsonShape>),
}

pub open spec fn shape(v: JsonValue) -> JsonShape
    decreases v,
{
    match v {
        JsonValue::Null => JsonShape::Null,
        JsonValue::Bool(b) => JsonShape::Bool(b),
        JsonValue::Number(t) => JsonShape::Number(t),
        JsonValue::Str(s) => JsonShape::Str(s),
        JsonValue::Array(items) => JsonShape::Array(shape_items(items)),
        JsonValue::Object(fields) => JsonShape::Object(shape_fields(fields)),
    }
}

pub open spec fn shape_items(items: Seq<JsonValue>) -> Seq<JsonShape>
    decreases items,
{
    if items.len() == 0 {
        Seq::empty()
    } else {
        shape_items(items.drop_last()).push(shape(items.last()))
    }
}

pub open spec fn shape_fields(fields: Seq<(Seq<u8>, JsonValue)>) -> Map<Seq<u8>, JsonShape>
    decreases fields,
{
    if fields.len() == 0 {
        Map::empty()
    } else {
        shape_fields(fields.drop_last()).insert(fields.last().0, shape(fields.last().1))
    }
}

/// Two values are equal up to the order of fields within objects.
pub open spec fn same_up_to_field_order(a: JsonValue, b: JsonValue) -> bool {
    shape(a) == shape(b)
}

proof fn lemma_shape_items(items: Seq<JsonValue>)
    ensures
        shape_items(items).len() == items.len(),
        forall|i: int| 0 <= i < items.len() ==> #[trigger] shape_items(items)[i] == shape(items[i]),
    decreases items.len(),
{
    if items.len() > 0 {
        lemma_shape_items(items.drop_last());
    }
}

proof fn lemma_shape_fields(fields: Seq<(Seq<u8>, JsonValue)>)
    requires
        distinct_by_key(fields),
    ensures
        forall|k: Seq<u8>| #[trigger] shape_fields(fields).dom().contains(k) <==> exists|i: int|
            0 <= i < fields.len() && fields[i].0 == k,
        forall|i: int| 0 <= i < fields.len() ==> #[trigger] shape_fields(fields)[fields[i].0] == shape(fields[i].1),
    decreases fields.len(),
{
    if fields.len() > 0 {
        let t = fields.drop_last();
        assert(distinct_by_key(t));
        lemma_shape_fields(t);
        assert forall|k: Seq<u8>| #[trigger] shape_fields(fields).dom().contains(k) <==> exists|i: int|
            0 <= i < fields.len() && fields[i].0 == k by {
            if exists|i: int| 0 <= i < fields.len() && fields[i].0 == k {
                let i = choose|i: int| 0 <= i < fields.len() && fields[i].0 == k;
                if i < fields.len() - 1 {
                    assert(t[i].0 == k);
                }
            }
            if shape_fields(t).dom().contains(k) {
                let i = choose|i: int| 0 <= i < t.len() && t[i].0 == k;
                assert(fields[i].0 == k);
            }
        }
        assert forall|i: int| 0 <= i < fields.len() implies #[trigger] shape_fields(fields)[fields[i].0] == shape(fields[i].1) by {
            if i < fields.len() - 1 {
                assert(t[i] == fields[i]);
                assert(fields[i].0 != fields[fields.len() - 1].0);
            }
        }
    }
}

/// Values equal up to field order sort to the same tree.
pub proof fn lemma_sort_determined_by_shape(a: JsonValue, b: JsonValue)
    requires
        distinct_keys(a),
        distinct_keys(b),
        same_up_to_field_order(a, b),
    ensures
        sort_value(a) == sort_value(b),
    decreases a,
{
    match a {
        JsonValue::Array(ia) => {
            let ib = b->Array_0;
            lemma_shape_items(ia);
            lemma_shape_items(ib);
            lemma_sort_items(ia);
            lemma_sort_items(ib);
            lemma_distinct_keys_items(ia);
            lemma_distinct_keys_items(ib);
            assert forall|i: int| 0 <= i < ia.len() implies #[trigger] sort_items(ia)[i] == sort_items(ib)[i] by {
                assert(shape_items(ia)[i] == shape_items(ib)[i]);
                assert(decreases_to!(a => ia));
                lemma_sort_determined_by_shape(ia[i], ib[i]);
            }
            assert(sort_items(ia) =~= sort_items(ib));
        },
        JsonValue::Object(fa) => {
            let fb = b->Object_0;
            assert(distinct_by_key(fa));
            assert(distinct_by_key(fb));
            lemma_shape_fields(fa);
            lemma_shape_fields(fb);
            lemma_distinct_keys_fields(fa);
            lemma_distinct_keys_fields(fb);
            let x = sort_field_values(fa);
            let y = sort_field_values(fb);
            lemma_sort_field_values(fa);
            lemma_sort_field_values(fb);
            assert(distinct_by_key(x));
            assert(distinct_by_key(y));
            assert forall|e: (Seq<u8>, JsonValue)| x.contains(e) <==> y.contains(e) by {
                if x.contains(e) {
                    let i = choose|i: int| 0 <= i < x.len() && x[i] == e;
                    assert(shape_fields(fa).dom().contains(fa[i].0));
                    let j = choose|j: int| 0 <= j < fb.len() && fb[j].0 == fa[i].0;
                    assert(shape_fields(fb)[fb[j].0] == shape(fb[j].1));
                    assert(decreases_to!(a => fa));
                    assert(decreases_to!(fa => fa[i]));
                    lemma_sort_determined_by_shape(fa[i].1, fb[j].1);
                    assert(y[j] == e);
                }
                if y.contains(e) {
                    let j = choose|j: int| 0 <= j < y.len() && y[j] == e;
                    assert(shape_fields(fb).dom().contains(fb[j].0));
                    let i = choose|i: int| 0 <= i < fa.len() && fa[i].0 == fb[j].0;
                    assert(shape_fields(fa)[fa[i].0] == shape(fa[i].1));
                    assert(decreases_to!(a => fa));
                    assert(decreases_to!(fa => fa[i]));
                    lemma_sort_determined_by_shape(fa[i].1, fb[j].1);
                    assert(x[i] == e);
                }
            }
            lemma_sort_distinct(x);
            lemma_sort_distinct(y);
            lemma_sort_contents(x);
            lemma_sort_contents(y);
            lemma_strictly_sorted_unique(sort_by_key(x), sort_by_key(y));
        },
        _ => {},
    }
}

// ---------------------------------------------------------------------------
// Text normalization.
// ---------------------------------------------------------------------------

/// What `str::to_lowercase` makes of a text.
pub uninterp spec fn lower_of(s: Seq<char>) -> Seq<char>;

/// Whether `char::is_alphanumeric` holds of a character.
pub uninterp spec fn is_alphanumeric_char(c: char) -> bool;

/// The Unicode White_Space property: U+0009..U+000D, U+0020, U+0085, U+00A0,
/// U+1680, U+2000..U+200A, U+2028, U+2029, U+202F, U+205F and U+3000.
pub open spec fn is_whitespace_char(c: char) -> bool {
    let u = c as u32;
    ||| 0x09 <= u <= 0x0D
    ||| u == 0x20
    ||| u == 0x85
    ||| u == 0xA0
    ||| u == 0x1680
    ||| 0x2000 <= u <= 0x200A
    ||| u == 0x2028
    ||| u == 0x2029
    ||| u == 0x202F
    ||| u == 0x205F
    ||| u == 0x3000
}

/// Relies on `str::to_lowercase`: the lower-case text depends on the text alone;
/// its characters are handed back one by one.
#[verifier::external_body]
pub(crate) fn lowercase_chars(s: &str) -> (r: Vec<char>)
    ensures
        r@ == lower_of(s@),
{
    s.to_lowercase().chars().collect()
}

/// Relies on `char::is_alphanumeric`: the Unicode Alphabetic or Numeric property.
#[verifier::external_body]
fn char_is_alphanumeric(c: char) -> (r: bool)
    ensures
        r == is_alphanumeric_char(c),
{
    c.is_alphanumeric()
}

/// Relies on `char::is_whitespace`: true exactly for the characters with the
/// Unicode White_Space property.
#[verifier::external_body]
fn char_is_whitespace(c: char) -> (r: bool)
    ensures
        r == is_whitespace_char(c),
{
    c.is_whitespace()
}

/// Relies on `String`'s `FromIterator<char>`: the string of the given characters.
#[verifier::external_body]
pub(crate) fn string_from_chars(v: &Vec<char>) -> (r: String)
    ensures
        r@ == v@,
{
    v.iter().collect()
}

/// A character as it survives cleaning: alphanumeric characters stay, whitespace
/// becomes one space, anything else is dropped.
pub open spec fn clean_char(c: char) -> Seq<char> {
    if is_alphanumeric_char(c) {
        seq![c]
    } else if is_whitespace_char(c) {
        seq![' ']
    } else {
        Seq::empty()
    }
}

pub open spec fn clean(s: Seq<char>) -> Seq<char>
    decreases s.len(),
{
    if s.len() == 0 {
        Seq::empty()
    } else {
        clean(s.drop_last()) + clean_char(s.last())
    }
}

/// Runs of spaces collapsed into one, with no space at either end.
pub open spec fn squeeze(t: Seq<char>) -> Seq<char>
    decreases t.len(),
{
    if t.len() == 0 {
        Seq::empty()
    } else if t.last() == ' ' {
        squeeze(t.drop_last())
    } else {
        let pre = t.drop_last();
        let body = squeeze(pre);
        if body.len() > 0 && pre.len() > 0 && pre.last() == ' ' {
            body.push(' ').push(t.last())
        } else {
            body.push(t.last())
        }
    }
}

/// The normalized form of a text: lower-cased, punctuation dropped, whitespace
/// runs collapsed to one space, trimmed.
pub open spec fn normalize(text: Seq<char>) -> Seq<char> {
    squeeze(clean(lower_of(text)))
}

/// Cleans lower-cased characters: alphanumeric characters stay, whitespace becomes
/// one space, anything else is dropped.
pub fn clean_lowered(lower: &Vec<char>) -> (r: Vec<char>)
    ensures
        r@ == clean(lower@),
{
    let mut cleaned: Vec<char> = Vec::new();
    let n = lower.len();
    let mut i: usize = 0;
    while i < n
        invariant
            n == lower@.len(),
            i <= n,
            cleaned@ == clean(lower@.take(i as int)),
        decreases n - i,
    {
        let c = lower[i];
        if char_is_alphanumeric(c) {
            cleaned.push(c);
        } else if char_is_whitespace(c) {
            cleaned.push(' ');
        }
        assert(lower@.take(i + 1).drop_last() =~= lower@.take(i as int));
        assert(cleaned@ =~= clean(lower@.take(i + 1)));
        i = i + 1;
    }
    assert(lower@.take(n as int) =~= lower@);
    cleaned
}

/// Collapses runs of spaces into one and drops spaces at both ends.
pub fn squeeze_spaces(cleaned: &Vec<char>) -> (r: Vec<char>)
    ensures
        r@ == squeeze(cleaned@),
{
    let mut out: Vec<char> = Vec::new();
    let m = cleaned.len();
    let mut k: usize = 0;
    while k < m
        invariant
            m == cleaned@.len(),
            k <= m,
            out@ == squeeze(cleaned@.take(k as int)),
        decreases m - k,
    {
        let c = cleaned[k];
        let ghost t = cleaned@.take(k + 1);
        assert(t.drop_last() =~= cleaned@.take(k as int));
        if c != ' ' {
            if out.len() > 0 && k > 0 && cleaned[k - 1] == ' ' {
                out.push(' ');
            }
            out.push(c);
        }
        assert(out@ =~= squeeze(t));
        k = k + 1;
    }
    assert(cleaned@.take(m as int) =~= cleaned@);
    out
}

/// Normalizes a text: lower-case it, drop every character that is neither
/// alphanumeric nor whitespace, collapse whitespace runs into one space, trim.
pub fn normalize_text(text: &str) -> (r: String)
    ensures
        r@ == normalize(text@),
{
    let lower = lowercase_chars(text);
    let cleaned = clean_lowered(&lower);
    let out = squeeze_spaces(&cleaned);
    string_from_chars(&out)
}

// ---------------------------------------------------------------------------
// Hashing and hex.
// ---------------------------------------------------------------------------

/// The SHA-256 digest of a byte string.
pub uninterp spec fn sha256_of(data: Seq<u8>) -> Seq<u8>;

/// Relies on `sha2::Sha256::digest`: the 32-byte SHA-256 digest of the bytes.
#[verifier::external_body]
fn sha256(data: &[u8]) -> (r: [u8; 32])
    ensures
        r@ == sha256_of(data@),
{
    <sha2::Sha256 as sha2::Digest>::digest(data).into()
}

/// Lower-case hexadecimal digit of a value below 16.
pub open spec fn hex_char(n: int) -> char {
    if n < 10 {
        (48 + n) as char
    } else {
        (87 + n) as char
    }
}

/// Two lower-case hexadecimal digits per byte, in order.
pub open spec fn hex_text(b: Seq<u8>) -> Seq<char>
    decreases b.len(),
{
    if b.len() == 0 {
        Seq::empty()
    } else {
        hex_text(b.drop_last()) + seq![hex_char(b.last() as int / 16), hex_char(b.last() as int % 16)]
    }
}

/// Relies on `hex::encode`: two lower-case hexadecimal digits per byte, in order.
#[verifier::external_body]
fn hex_encode(b: &[u8]) -> (r: String)
    ensures
        r@ == hex_text(b@),
{
    hex::encode(b)
}

// ---------------------------------------------------------------------------
// The canonical payload.
// ---------------------------------------------------------------------------

/// Why canonicalization failed.
#[derive(Debug)]
pub enum CanonicalizeError {
    /// The logic description is not valid JSON.
    JsonParseError(serde_json::Error),
    /// Reserved for payload or text encoding faults.
    Utf8Error,
}

/// Canonical representation of a proposal.
#[derive(Debug, Clone)]
pub struct CanonicalPayload {
    /// Sorted logic bytes, a `.`, then the normalized text.
    pub bytes: Vec<u8>,
    /// SHA-256 hash of `bytes`; it is the proposal's identifier.
    pub hash: [u8; 32],
}

impl CanonicalPayload {
    /// The hash as lower-case hexadecimal.
    pub fn hash_hex(&self) -> (r: String)
        ensures
            r@ == hex_text(self.hash@),
    {
        hex_encode(self.hash.as_slice())
    }
}

/// The canonical payload of a logic tree and a text: the compact encoding of the
/// key-sorted tree, a `.` (0x2E), and the UTF-8 bytes of the normalized text.
pub open spec fn canonical_payload(logic: JsonValue, text: Seq<char>) -> Seq<u8> {
    encode(sort_value(logic)) + seq![0x2Eu8] + encode_utf8(normalize(text))
}

/// The compact encoding of a logic description with every object in key order.
pub fn canonical_logic_bytes(logic: &str) -> (r: Result<Vec<u8>, CanonicalizeError>)
    ensures
        match r {
            Ok(b) => json_parse(logic@) matches Some(v) && b@ == encode(sort_value(v)),
            Err(e) => json_parse(logic@) is None && e is JsonParseError,
        },
{
    match parse_json(logic) {
        Ok(j) => {
            let sorted = sort_json_keys(&j);
            let mut out: Vec<u8> = Vec::new();
            write_json(&sorted, &mut out);
            assert(out@ =~= encode(sort_value(j@)));
            Ok(out)
        },
        Err(e) => Err(CanonicalizeError::JsonParseError(e)),
    }
}

/// Canonicalizes a proposal: the sorted logic bytes, `.`, the normalized text, and
/// the SHA-256 hash of that payload. Fails exactly when the logic is not JSON.
pub fn canonicalize(proposal: &Proposal) -> (r: Result<CanonicalPayload, CanonicalizeError>)
    ensures
        match r {
            Ok(c) => json_parse(proposal.logic_ast@) matches Some(v) && c.bytes@
                == canonical_payload(v, proposal.text@) && c.hash@ == sha256_of(c.bytes@),
            Err(e) => json_parse(proposal.logic_ast@) is None && e is JsonParseError,
        },
{
    let mut bytes = match canonical_logic_bytes(proposal.logic_ast.as_str()) {
        Ok(b) => b,
        Err(e) => return Err(e),
    };
    bytes.push(0x2E);
    let text = normalize_text(proposal.text.as_str());
    let tb = text.as_str().as_bytes();
    let ghost start = bytes@;
    let n = tb.len();
    let mut i: usize = 0;
    while i < n
        invariant
            n == tb@.len(),
            i <= n,
            bytes@ == start + tb@.take(i as int),
        decreases n - i,
    {
        bytes.push(tb[i]);
        assert(tb@.take(i + 1) =~= tb@.take(i as int).push(tb@[i as int]));
        i = i + 1;
    }
    assert(tb@.take(n as int) =~= tb@);
    let hash = sha256(bytes.as_slice());
    Ok(CanonicalPayload { bytes, hash })
}

/// Canonical form of a proposal for external collaborators.
pub struct CanonicalResult {
    /// Canonical payload, hex encoded.
    pub payload_hex: String,
    /// SHA-256 hash of the payload, hex encoded: the proposal identifier.
    pub hash: String,
    /// Payload length in bytes, saturated at `i64::MAX`.
    pub length: i64,
}

/// Canonicalizes a new proposal built from its parts, with the payload and its hash
/// hex encoded. Fails exactly when the logic is not JSON.
pub fn canonicalize_proposal(
    proposer: String,
    logic_ast: String,
    text: String,
    layer: GovernanceLayer,
) -> (r: Result<CanonicalResult, CanonicalizeError>)
    ensures
        match r {
            Ok(c) => json_parse(logic_ast@) matches Some(v) && c.payload_hex@ == hex_text(
                canonical_payload(v, text@),
            ) && c.hash@ == hex_text(sha256_of(canonical_payload(v, text@))) && c.length
                == if canonical_payload(v, text@).len() <= i64::MAX {
                canonical_payload(v, text@).len() as int
            } else {
                i64::MAX as int
            },
            Err(e) => json_parse(logic_ast@) is None && e is JsonParseError,
        },
{
    let proposal = Proposal::new(proposer, logic_ast, text, layer);
    let canonical = match canonicalize(&proposal) {
        Ok(c) => c,
        Err(e) => return Err(e),
    };
    let len = canonical.bytes.len() as u64;
    let length: i64 = if len <= i64::MAX as u64 {
        len as i64
    } else {
        i64::MAX
    };
    Ok(CanonicalResult {
        payload_hex: hex_encode(canonical.bytes.as_slice()),
        hash: canonical.hash_hex(),
        length,
    })
}

// ---------------------------------------------------------------------------
// Determinism.
// ---------------------------------------------------------------------------

/// A character that is neither alphanumeric nor whitespace.
pub open spec fn is_punctuation_char(c: char) -> bool {
    !is_alphanumeric_char(c) && !is_whitespace_char(c)
}

/// A whitespace character (Unicode has none that is also alphanumeric).
pub open spec fn is_spacing_char(c: char) -> bool {
    is_whitespace_char(c) && !is_alphanumeric_char(c)
}

/// A nonempty run of whitespace.
pub open spec fn spacing_run(w: Seq<char>) -> bool {
    w.len() > 0 && forall|i: int| 0 <= i < w.len() ==> #[trigger] is_spacing_char(w[i])
}

/// `y` is `x` with the punctuation character `c` between `a` and `b` deleted.
pub open spec fn punctuation_deleted(x: Seq<char>, y: Seq<char>, a: Seq<char>, c: char, b: Seq<char>) -> bool {
    x == a + seq![c] + b && y == a + b && is_punctuation_char(c)
}

/// `y` is `x` with the whitespace run `w1` between `a` and `b` replaced by `w2`.
pub open spec fn spacing_replaced(
    x: Seq<char>,
    y: Seq<char>,
    a: Seq<char>,
    w1: Seq<char>,
    w2: Seq<char>,
    b: Seq<char>,
) -> bool {
    x == a + w1 + b && y == a + w2 + b && spacing_run(w1) && spacing_run(w2)
}

/// `y` is `x` with the whitespace run `w` added at the start or at the end.
pub open spec fn spacing_added(x: Seq<char>, y: Seq<char>, w: Seq<char>) -> bool {
    spacing_run(w) && (y == w + x || y == x + w)
}

/// One edit of a lower-cased text that normalization ignores: punctuation inserted
/// or deleted, a whitespace run replaced by another, or whitespace added or removed
/// at either end.
pub open spec fn ignored_edit(x: Seq<char>, y: Seq<char>) -> bool {
    ||| exists|a: Seq<char>, c: char, b: Seq<char>| #[trigger] punctuation_deleted(x, y, a, c, b)
    ||| exists|a: Seq<char>, c: char, b: Seq<char>| #[trigger] punctuation_deleted(y, x, a, c, b)
    ||| exists|a: Seq<char>, w1: Seq<char>, w2: Seq<char>, b: Seq<char>|
        #[trigger] spacing_replaced(x, y, a, w1, w2, b)
    ||| exists|w: Seq<char>| #[trigger] spacing_added(x, y, w)
    ||| exists|w: Seq<char>| #[trigger] spacing_added(y, x, w)
}

/// A chain of ignored edits from the first text to the last.
pub open spec fn edit_chain(chain: Seq<Seq<char>>) -> bool {
    forall|i: int| 0 <= i < chain.len() - 1 ==> #[trigger] ignored_edit(chain[i], chain[i + 1])
}

/// Texts equal up to case, punctuation and whitespace runs: their lower-cased forms
/// are joined by a chain of ignored edits.
pub open spec fn same_text_up_to_normalization(t1: Seq<char>, t2: Seq<char>) -> bool {
    exists|chain: Seq<Seq<char>>|
        #![trigger edit_chain(chain)]
        chain.len() >= 1 && edit_chain(chain) && chain[0] == lower_of(t1) && chain.last()
            == lower_of(t2)
}

/// `n` spaces.
pub open spec fn spaces(n: nat) -> Seq<char> {
    Seq::new(n, |i: int| ' ')
}

proof fn lemma_clean_concat(a: Seq<char>, b: Seq<char>)
    ensures
        clean(a + b) == clean(a) + clean(b),
    decreases b.len(),
{
    if b.len() == 0 {
        assert(a + b =~= a);
        assert(clean(a) + clean(b) =~= clean(a));
    } else {
        lemma_clean_concat(a, b.drop_last());
        assert((a + b).drop_last() =~= a + b.drop_last());
        assert((a + b).last() == b.last());
        assert(clean(a) + clean(b) =~= clean(a) + clean(b.drop_last()) + clean_char(b.last()));
    }
}

proof fn lemma_clean_spacing(w: Seq<char>)
    requires
        forall|i: int| 0 <= i < w.len() ==> #[trigger] is_spacing_char(w[i]),
    ensures
        clean(w) == spaces(w.len()),
    decreases w.len(),
{
    if w.len() > 0 {
        assert(is_spacing_char(w[w.len() - 1]));
        lemma_clean_spacing(w.drop_last());
        assert(spaces(w.len()) =~= spaces((w.len() - 1) as nat) + seq![' ']);
    } else {
        assert(clean(w) =~= spaces(0));
    }
}

proof fn lemma_squeeze_double_space(x: Seq<char>, y: Seq<char>)
    ensures
        squeeze(x + seq![' ', ' '] + y) == squeeze(x + seq![' '] + y),
    decreases y.len(),
{
    let t1 = x + seq![' ', ' '] + y;
    let t2 = x + seq![' '] + y;
    if y.len() == 0 {
        assert(t1.drop_last() =~= t2);
        assert(t1.last() == ' ');
    } else {
        let y1 = y.drop_last();
        lemma_squeeze_double_space(x, y1);
        assert(t1.drop_last() =~= x + seq![' ', ' '] + y1);
        assert(t2.drop_last() =~= x + seq![' '] + y1);
        assert(t1.last() == y.last() && t2.last() == y.last());
        if y1.len() == 0 {
            assert(t1.drop_last().last() == ' ' && t2.drop_last().last() == ' ');
        } else {
            assert(t1.drop_last().last() == y1.last() && t2.drop_last().last() == y1.last());
        }
    }
}

proof fn lemma_squeeze_spaces(x: Seq<char>, m: nat, y: Seq<char>)
    requires
        m >= 1,
    ensures
        squeeze(x + spaces(m) + y) == squeeze(x + seq![' '] + y),
    decreases m,
{
    if m == 1 {
        assert(spaces(1) =~= seq![' ']);
    } else {
        let z = spaces((m - 2) as nat) + y;
        assert(x + spaces(m) + y =~= x + seq![' ', ' '] + z);
        lemma_squeeze_double_space(x, z);
        assert(x + seq![' '] + z =~= x + spaces((m - 1) as nat) + y);
        lemma_squeeze_spaces(x, (m - 1) as nat, y);
    }
}

proof fn lemma_squeeze_leading_space(y: Seq<char>)
    ensures
        squeeze(seq![' '] + y) == squeeze(y),
    decreases y.len(),
{
    let t = seq![' '] + y;
    if y.len() == 0 {
        assert(t.drop_last() =~= y);
    } else {
        let y1 = y.drop_last();
        lemma_squeeze_leading_space(y1);
        assert(t.drop_last() =~= seq![' '] + y1);
        assert(t.last() == y.last());
        if y1.len() == 0 {
            assert(seq![' '] + y1 =~= seq![' ']);
            assert(squeeze(seq![' ']) == squeeze(seq![' '].drop_last()));
            assert(seq![' '].drop_last() =~= Seq::<char>::empty());
        } else {
            assert(t.drop_last().last() == y1.last());
        }
    }
}

proof fn lemma_squeeze_leading_spaces(m: nat, y: Seq<char>)
    ensures
        squeeze(spaces(m) + y) == squeeze(y),
    decreases m,
{
    if m == 0 {
        assert(spaces(0) + y =~= y);
    } else {
        assert(spaces(m) + y =~= seq![' '] + (spaces((m - 1) as nat) + y));
        lemma_squeeze_leading_space(spaces((m - 1) as nat) + y);
        lemma_squeeze_leading_spaces((m - 1) as nat, y);
    }
}

proof fn lemma_squeeze_trailing_spaces(y: Seq<char>, m: nat)
    ensures
        squeeze(y + spaces(m)) == squeeze(y),
    decreases m,
{
    if m == 0 {
        assert(y + spaces(0) =~= y);
    } else {
        let t = y + spaces(m);
        assert(t.drop_last() =~= y + spaces((m - 1) as nat));
        assert(t.last() == ' ');
        lemma_squeeze_trailing_spaces(y, (m - 1) as nat);
    }
}

/// One ignored edit leaves the normalized form unchanged.
proof fn lemma_ignored_edit(x: Seq<char>, y: Seq<char>)
    requires
        ignored_edit(x, y),
    ensures
        squeeze(clean(x)) == squeeze(clean(y)),
{
    if exists|a: Seq<char>, c: char, b: Seq<char>| #[trigger] punctuation_deleted(x, y, a, c, b) {
        let (a, c, b) = choose|a: Seq<char>, c: char, b: Seq<char>| #[trigger] punctuation_deleted(x, y, a, c, b);
        lemma_punctuation_deleted(a, c, b);
    } else if exists|a: Seq<char>, c: char, b: Seq<char>| #[trigger] punctuation_deleted(y, x, a, c, b) {
        let (a, c, b) = choose|a: Seq<char>, c: char, b: Seq<char>| #[trigger] punctuation_deleted(y, x, a, c, b);
        lemma_punctuation_deleted(a, c, b);
    } else if exists|a: Seq<char>, w1: Seq<char>, w2: Seq<char>, b: Seq<char>| #[trigger] spacing_replaced(x, y, a, w1, w2, b) {
        let (a, w1, w2, b) = choose|a: Seq<char>, w1: Seq<char>, w2: Seq<char>, b: Seq<char>| #[trigger] spacing_replaced(x, y, a, w1, w2, b);
        lemma_spacing_cleaned(a, w1, b);
        lemma_spacing_cleaned(a, w2, b);
    } else if exists|w: Seq<char>| #[trigger] spacing_added(x, y, w) {
        let w = choose|w: Seq<char>| #[trigger] spacing_added(x, y, w);
        lemma_spacing_added(x, y, w);
    } else {
        let w = choose|w: Seq<char>| #[trigger] spacing_added(y, x, w);
        lemma_spacing_added(y, x, w);
    }
}

proof fn lemma_punctuation_deleted(a: Seq<char>, c: char, b: Seq<char>)
    requires
        is_punctuation_char(c),
    ensures
        clean(a + seq![c] + b) == clean(a + b),
{
    lemma_clean_concat(a + seq![c], b);
    lemma_clean_concat(a, seq![c]);
    lemma_clean_concat(a, b);
    assert(seq![c].drop_last() =~= Seq::<char>::empty());
    assert(seq![c].last() == c);
    assert(clean_char(c) =~= Seq::<char>::empty());
    assert(clean(Seq::<char>::empty()) =~= Seq::<char>::empty());
    assert(clean(seq![c]) =~= Seq::<char>::empty());
    assert(clean(a) + clean(seq![c]) =~= clean(a));
}

proof fn lemma_spacing_cleaned(a: Seq<char>, w: Seq<char>, b: Seq<char>)
    requires
        spacing_run(w),
    ensures
        squeeze(clean(a + w + b)) == squeeze(clean(a) + seq![' '] + clean(b)),
{
    lemma_clean_concat(a + w, b);
    lemma_clean_concat(a, w);
    lemma_clean_spacing(w);
    lemma_squeeze_spaces(clean(a), w.len(), clean(b));
}

proof fn lemma_spacing_added(x: Seq<char>, y: Seq<char>, w: Seq<char>)
    requires
        spacing_added(x, y, w),
    ensures
        squeeze(clean(x)) == squeeze(clean(y)),
{
    lemma_clean_spacing(w);
    if y == w + x {
        lemma_clean_concat(w, x);
        lemma_squeeze_leading_spaces(w.len(), clean(x));
    } else {
        lemma_clean_concat(x, w);
        lemma_squeeze_trailing_spaces(clean(x), w.len());
    }
}

/// Texts equal up to case, punctuation and whitespace runs normalize alike.
pub proof fn lemma_normalize_ignores_edits(t1: Seq<char>, t2: Seq<char>)
    requires
        same_text_up_to_normalization(t1, t2),
    ensures
        normalize(t1) == normalize(t2),
{
    let chain = choose|chain: Seq<Seq<char>>|
        #![trigger edit_chain(chain)]
        chain.len() >= 1 && edit_chain(chain) && chain[0] == lower_of(t1) && chain.last() == lower_of(t2);
    lemma_chain(chain, (chain.len() - 1) as nat);
}

proof fn lemma_chain(chain: Seq<Seq<char>>, k: nat)
    requires
        edit_chain(chain),
        k < chain.len(),
    ensures
        squeeze(clean(chain[0])) == squeeze(clean(chain[k as int])),
    decreases k,
{
    if k > 0 {
        lemma_chain(chain, (k - 1) as nat);
        assert(ignored_edit(chain[k - 1], chain[(k - 1) + 1]));
        lemma_ignored_edit(chain[k - 1], chain[k as int]);
    }
}

/// Logic trees equal up to the order of object fields, with texts equal up to
/// case, punctuation and whitespace runs, give identical canonical payloads and
/// therefore identical hashes.
pub proof fn lemma_canonical_determinism(a: JsonValue, b: JsonValue, t1: Seq<char>, t2: Seq<char>)
    requires
        distinct_keys(a),
        distinct_keys(b),
        same_up_to_field_order(a, b),
        same_text_up_to_normalization(t1, t2),
    ensures
        canonical_payload(a, t1) == canonical_payload(b, t2),
        sha256_of(canonical_payload(a, t1)) == sha256_of(canonical_payload(b, t2)),
{
    lemma_sort_determined_by_shape(a, b);
    lemma_normalize_ignores_edits(t1, t2);
}

} // verus!
