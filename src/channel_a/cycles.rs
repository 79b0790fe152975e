//! Cycle detection: a dependency graph over the top-level fields of the logic
//! description, and its strongly connected components.

use vstd::prelude::*;

use crate::channel_a::graph::{
    adjacency_edges, cyclic_components, cyclic_components_of, has_cycle, is_walk,
    lemma_cycle_iff_cyclic_component, rows_view, scc_partition, targets_in_range, walk_step,
};
use crate::channel_a::order::distinct_by_key;
use crate::channel_a::json::{
    bytes_of, fields_view, items_view, json_parse, json_view, lemma_fields_view, lemma_items_view,
    parse_json, Json, JsonValue,
};

verus! {

broadcast use vstd::seq::group_seq_axioms, vstd::std_specs::vec::group_vec_axioms;

/// Prefix of a string value that names a target: `$ref:`.
pub const REF_PREFIX: [u8; 5] = [36, 114, 101, 102, 58];

/// Field holding an array of target names: `depends_on`.
pub const DEPENDS_ON: [u8; 10] = [100, 101, 112, 101, 110, 100, 115, 95, 111, 110];

/// Field holding one target name: `references`.
pub const REFERENCES: [u8; 10] = [114, 101, 102, 101, 114, 101, 110, 99, 101, 115];

/// Field holding one target name: `ref`.
pub const REF: [u8; 3] = [114, 101, 102];

/// The value of the first field with the given key.
pub open spec fn field_get(fields: Seq<(Seq<u8>, JsonValue)>, key: Seq<u8>) -> Option<JsonValue>
    decreases fields.len(),
{
    if fields.len() == 0 {
        None
    } else if fields[0].0 == key {
        Some(fields[0].1)
    } else {
        field_get(fields.drop_first(), key)
    }
}

/// The string elements of an array, in order.
pub open spec fn strings_of(items: Seq<JsonValue>) -> Seq<Seq<u8>>
    decreases items.len(),
{
    if items.len() == 0 {
        Seq::empty()
    } else {
        strings_of(items.drop_last()) + match items.last() {
            JsonValue::Str(s) => seq![s],
            _ => Seq::empty(),
        }
    }
}

/// A single string target.
pub open spec fn string_target(v: Option<JsonValue>) -> Seq<Seq<u8>> {
    match v {
        Some(JsonValue::Str(s)) => seq![s],
        _ => Seq::empty(),
    }
}

/// Targets an object names directly: each string of a `depends_on` array, then a
/// `references` string, then a `ref` string.
pub open spec fn explicit_targets(fields: Seq<(Seq<u8>, JsonValue)>) -> Seq<Seq<u8>> {
    (match field_get(fields, DEPENDS_ON@) {
        Some(JsonValue::Array(items)) => strings_of(items),
        _ => Seq::empty(),
    }) + string_target(field_get(fields, REFERENCES@)) + string_target(field_get(fields, REF@))
}

/// Whether a string names a target by the `$ref:` prefix.
pub open spec fn has_ref_prefix(s: Seq<u8>) -> bool {
    s.len() >= 5 && s.take(5) == REF_PREFIX@
}

/// Every target a value names, at any depth, in document order: a string with the
/// `$ref:` prefix names the rest of the string; an object names its explicit
/// targets, then those of its field values.
pub open spec fn targets(v: JsonValue) -> Seq<Seq<u8>>
    decreases v,
{
    match v {
        JsonValue::Str(s) => if has_ref_prefix(s) {
            seq![s.skip(5)]
        } else {
            Seq::empty()
        },
        JsonValue::Array(items) => targets_items(items),
        JsonValue::Object(fields) => explicit_targets(fields) + targets_fields(fields),
        _ => Seq::empty(),
    }
}

pub open spec fn targets_items(items: Seq<JsonValue>) -> Seq<Seq<u8>>
    decreases items,
{
    if items.len() == 0 {
        Seq::empty()
    } else {
        targets_items(items.drop_last()) + targets(items.last())
    }
}

pub open spec fn targets_fields(fields: Seq<(Seq<u8>, JsonValue)>) -> Seq<Seq<u8>>
    decreases fields,
{
    if fields.len() == 0 {
        Seq::empty()
    } else {
        targets_fields(fields.drop_last()) + targets(fields.last().1)
    }
}

/// Field `w` is the first with key `name`.
pub open spec fn is_first_key(fields: Seq<(Seq<u8>, JsonValue)>, name: Seq<u8>, w: int) -> bool {
    &&& 0 <= w < fields.len()
    &&& fields[w].0 == name
    &&& forall|k: int| 0 <= k < w ==> fields[k].0 != name
}

/// An edge from field `u` to field `w`: the value of `u` names the key of `w`.
pub open spec fn dependency_edge(fields: Seq<(Seq<u8>, JsonValue)>, u: int, w: int) -> bool {
    &&& 0 <= u < fields.len()
    &&& exists|k: int|
        0 <= k < targets(fields[u].1).len() && #[trigger] is_first_key(
            fields,
            targets(fields[u].1)[k],
            w,
        )
}

/// The dependency edges of a logic description; only an object has nodes.
pub open spec fn logic_edges(v: JsonValue) -> spec_fn(int, int) -> bool {
    |u: int, w: int|
        match v {
            JsonValue::Object(fields) => dependency_edge(fields, u, w),
            _ => false,
        }
}

/// Number of nodes of a logic description's dependency graph.
pub open spec fn node_count(v: JsonValue) -> int {
    match v {
        JsonValue::Object(fields) => fields.len() as int,
        _ => 0,
    }
}

pub open spec fn names_view(s: Seq<Vec<u8>>) -> Seq<Seq<u8>> {
    Seq::new(s.len(), |i: int| s[i]@)
}

fn bytes_vec(s: &String) -> (r: Vec<u8>)
    ensures
        r@ == bytes_of(*s),
{
    let b = s.as_str().as_bytes();
    let mut out: Vec<u8> = Vec::new();
    let mut i: usize = 0;
    while i < b.len()
        invariant
            i <= b@.len(),
            out@ == b@.take(i as int),
        decreases b@.len() - i,
    {
        out.push(b[i]);
        assert(b@.take(i + 1) =~= b@.take(i as int).push(b@[i as int]));
        i = i + 1;
    }
    assert(b@.take(b@.len() as int) =~= b@);
    out
}

fn bytes_equal(a: &[u8], b: &[u8]) -> (r: bool)
    ensures
        r == (a@ == b@),
{
    if a.len() != b.len() {
        return false;
    }
    let mut i: usize = 0;
    while i < a.len()
        invariant
            a@.len() == b@.len(),
            i <= a@.len(),
            forall|k: int| 0 <= k < i ==> a@[k] == b@[k],
        decreases a@.len() - i,
    {
        if a[i] != b[i] {
            return false;
        }
        i = i + 1;
    }
    assert(a@ =~= b@);
    true
}

/// The rest of a string after the `$ref:` prefix, if it has the prefix.
fn ref_target(s: &String) -> (r: Option<Vec<u8>>)
    ensures
        r is Some <==> has_ref_prefix(bytes_of(*s)),
        r matches Some(t) ==> t@ == bytes_of(*s).skip(5),
{
    let b = s.as_str().as_bytes();
    if b.len() < 5 {
        return None;
    }
    let prefix = REF_PREFIX;
    let mut i: usize = 0;
    while i < 5
        invariant
            b@ == bytes_of(*s),
            b@.len() >= 5,
            prefix@ == REF_PREFIX@,
            i <= 5,
            forall|k: int| 0 <= k < i ==> b@[k] == prefix@[k],
        decreases 5 - i,
    {
        if b[i] != prefix[i] {
            assert(b@.take(5)[i as int] != REF_PREFIX@[i as int]);
            return None;
        }
        i = i + 1;
    }
    assert(b@.take(5) =~= REF_PREFIX@);
    let mut out: Vec<u8> = Vec::new();
    let mut j: usize = 5;
    while j < b.len()
        invariant
            b@ == bytes_of(*s),
            5 <= j <= b@.len(),
            out@ == b@.subrange(5, j as int),
        decreases b@.len() - j,
    {
        out.push(b[j]);
        assert(b@.subrange(5, j + 1) =~= b@.subrange(5, j as int).push(b@[j as int]));
        j = j + 1;
    }
    assert(b@.subrange(5, b@.len() as int) =~= b@.skip(5));
    Some(out)
}

proof fn lemma_field_get_first(fields: Seq<(Seq<u8>, JsonValue)>, key: Seq<u8>, w: int)
    requires
        is_first_key(fields, key, w),
    ensures
        field_get(fields, key) == Some(fields[w].1),
    decreases w,
{
    if w > 0 {
        assert(fields[0].0 != key);
        lemma_field_get_first(fields.drop_first(), key, w - 1);
    }
}

proof fn lemma_field_get_absent(fields: Seq<(Seq<u8>, JsonValue)>, key: Seq<u8>)
    requires
        forall|k: int| 0 <= k < fields.len() ==> fields[k].0 != key,
    ensures
        field_get(fields, key) is None,
    decreases fields.len(),
{
    if fields.len() > 0 {
        assert(fields[0].0 != key);
        lemma_field_get_absent(fields.drop_first(), key);
    }
}

/// Index of the first field whose key has the given bytes.
fn find_field(fields: &Vec<(String, Json)>, key: &[u8]) -> (r: Option<usize>)
    ensures
        match r {
            Some(w) => is_first_key(fields_view(fields@), key@, w as int),
            None => forall|k: int| 0 <= k < fields@.len() ==> fields_view(fields@)[k].0 != key@,
        },
{
    proof {
        lemma_fields_view(fields@);
    }
    let ghost fv = fields_view(fields@);
    let mut i: usize = 0;
    while i < fields.len()
        invariant
            fv == fields_view(fields@),
            fv.len() == fields@.len(),
            forall|k: int| 0 <= k < fields@.len() ==> #[trigger] fv[k] == (bytes_of(fields@[k].0), json_view(fields@[k].1)),
            i <= fields@.len(),
            forall|k: int| 0 <= k < i ==> fv[k].0 != key@,
        decreases fields@.len() - i,
    {
        let kb = fields[i].0.as_str().as_bytes();
        assert(fv[i as int].0 == kb@);
        if bytes_equal(kb, key) {
            return Some(i);
        }
        i = i + 1;
    }
    None
}

/// Appends every target that `v` names, in document order.
fn collect_targets(v: &Json, out: &mut Vec<Vec<u8>>)
    ensures
        names_view(final(out)@) == names_view(old(out)@) + targets(v@),
    decreases v,
{
    let ghost start = names_view(out@);
    match v {
        Json::Str(s) => {
            match ref_target(s) {
                Some(t) => {
                    out.push(t);
                    assert(names_view(out@) =~= start + targets(v@));
                },
                None => {
                    assert(names_view(out@) =~= start + targets(v@));
                },
            }
        },
        Json::Array(items) => {
            proof {
                lemma_items_view(items@);
            }
            let ghost views = items_view(items@);
            let n = items.len();
            let mut i: usize = 0;
            assert(names_view(out@) =~= start + targets_items(views.take(0)));
            while i < n
                invariant
                    n == items@.len(),
                    *v == Json::Array(*items),
                    views == items_view(items@),
                    views.len() == n,
                    forall|k: int| 0 <= k < n ==> #[trigger] views[k] == json_view(items@[k]),
                    i <= n,
                    names_view(out@) == start + targets_items(views.take(i as int)),
                decreases n - i,
            {
                proof {
                    assert(decreases_to!(*v => (*v)->Array_0));
                    assert(decreases_to!(*items => items@));
                    assert(decreases_to!(items@ => items@[i as int]));
                }
                collect_targets(&items[i], out);
                assert(views.take(i + 1).drop_last() =~= views.take(i as int));
                assert(names_view(out@) =~= start + targets_items(views.take(i + 1)));
                i = i + 1;
            }
            assert(views.take(n as int) =~= views);
        },
        Json::Object(fields) => {
            proof {
                lemma_fields_view(fields@);
            }
            let ghost views = fields_view(fields@);
            // a `depends_on` array of names
            match find_field(fields, DEPENDS_ON.as_slice()) {
                Some(w) => {
                    proof {
                        lemma_field_get_first(views, DEPENDS_ON@, w as int);
                    }
                    match &fields[w].1 {
                        Json::Array(items) => {
                            proof {
                                lemma_items_view(items@);
                            }
                            let ghost iv = items_view(items@);
                            let ghost s0 = names_view(out@);
                            let m = items.len();
                            let mut i: usize = 0;
                            assert(names_view(out@) =~= s0 + strings_of(iv.take(0)));
                            while i < m
                                invariant
                                    m == items@.len(),
                                    iv == items_view(items@),
                                    iv.len() == m,
                                    forall|k: int| 0 <= k < m ==> #[trigger] iv[k] == json_view(items@[k]),
                                    i <= m,
                                    names_view(out@) == s0 + strings_of(iv.take(i as int)),
                                decreases m - i,
                            {
                                let ghost before = names_view(out@);
                                assert(iv[i as int] == json_view(items@[i as int]));
                                match &items[i] {
                                    Json::Str(s) => {
                                        let t = bytes_vec(s);
                                        out.push(t);
                                        assert(iv[i as int] == JsonValue::Str(bytes_of(*s)));
                                        assert(names_view(out@) =~= before.push(bytes_of(*s)));
                                    },
                                    _ => {
                                        assert(!(iv[i as int] is Str));
                                    },
                                }
                                assert(iv.take(i + 1).drop_last() =~= iv.take(i as int));
                                assert(iv.take(i + 1).last() == iv[i as int]);
                                assert(iv[i as int] == json_view(items@[i as int]));
                                assert(names_view(out@) =~= s0 + strings_of(iv.take(i + 1)));
                                i = i + 1;
                            }
                            assert(iv.take(m as int) =~= iv);
                        },
                        _ => {},
                    }
                },
                None => {
                    proof {
                        lemma_field_get_absent(views, DEPENDS_ON@);
                    }
                },
            }
            // a `references` name, then a `ref` name
            let mut which: usize = 0;
            while which < 2
                invariant
                    views == fields_view(fields@),
                    views.len() == fields@.len(),
                    forall|k: int| 0 <= k < fields@.len() ==> #[trigger] views[k] == (bytes_of(fields@[k].0), json_view(fields@[k].1)),
                    which <= 2,
                    names_view(out@) == start + (match field_get(views, DEPENDS_ON@) {
                        Some(JsonValue::Array(items)) => strings_of(items),
                        _ => Seq::empty(),
                    }) + (if which >= 1 {
                        string_target(field_get(views, REFERENCES@))
                    } else {
                        Seq::empty()
                    }) + (if which >= 2 {
                        string_target(field_get(views, REF@))
                    } else {
                        Seq::empty()
                    }),
                decreases 2 - which,
            {
                let ghost before = names_view(out@);
                let ghost key = if which == 0 { REFERENCES@ } else { REF@ };
                let found = if which == 0 {
                    find_field(fields, REFERENCES.as_slice())
                } else {
                    find_field(fields, REF.as_slice())
                };
                match found {
                    Some(w) => {
                        proof {
                            lemma_field_get_first(views, key, w as int);
                        }
                        match &fields[w].1 {
                            Json::Str(s) => {
                                out.push(bytes_vec(s));
                            },
                            _ => {},
                        }
                    },
                    None => {
                        proof {
                            lemma_field_get_absent(views, key);
                        }
                    },
                }
                assert(names_view(out@) =~= before + string_target(field_get(views, key)));
                which = which + 1;
            }
            assert(names_view(out@) =~= start + explicit_targets(views));
            // then the targets of every field value
            let ghost s1 = names_view(out@);
            let n = fields.len();
            let mut i: usize = 0;
            assert(names_view(out@) =~= s1 + targets_fields(views.take(0)));
            while i < n
                invariant
                    n == fields@.len(),
                    *v == Json::Object(*fields),
                    views == fields_view(fields@),
                    views.len() == n,
                    forall|k: int| 0 <= k < n ==> #[trigger] views[k] == (bytes_of(fields@[k].0), json_view(fields@[k].1)),
                    i <= n,
                    names_view(out@) == s1 + targets_fields(views.take(i as int)),
                decreases n - i,
            {
                proof {
                    assert(decreases_to!(*v => (*v)->Object_0));
                    assert(decreases_to!(*fields => fields@));
                    assert(decreases_to!(fields@ => fields@[i as int]));
                    assert(decreases_to!(fields@[i as int] => fields@[i as int].1));
                }
                collect_targets(&fields[i].1, out);
                assert(views.take(i + 1).drop_last() =~= views.take(i as int));
                assert(names_view(out@) =~= s1 + targets_fields(views.take(i + 1)));
                i = i + 1;
            }
            assert(views.take(n as int) =~= views);
            assert(names_view(out@) =~= start + targets(v@));
        },
        _ => {
            assert(names_view(out@) =~= start + targets(v@));
        },
    }
}

/// Field `u` has an edge to exactly the fields listed in `row`.
pub open spec fn row_matches(fields: Seq<(Seq<u8>, JsonValue)>, u: int, row: Seq<usize>) -> bool {
    &&& forall|j: int|
        0 <= j < row.len() ==> #[trigger] row[j] < fields.len() && dependency_edge(
            fields,
            u,
            row[j] as int,
        )
    &&& forall|w: int| #[trigger] dependency_edge(fields, u, w) ==> row.contains(w as usize)
}

/// Adjacency lists of the dependency graph: one node per field, in field order.
fn build_graph(fields: &Vec<(String, Json)>) -> (r: Vec<Vec<usize>>)
    ensures
        r@.len() == fields@.len(),
        targets_in_range(rows_view(r@)),
        forall|u: int| 0 <= u < r@.len() ==> #[trigger] row_matches(fields_view(fields@), u, r@[u]@),
{
    proof {
        lemma_fields_view(fields@);
    }
    let ghost fv = fields_view(fields@);
    let n = fields.len();
    let mut adj: Vec<Vec<usize>> = Vec::new();
    let mut u: usize = 0;
    while u < n
        invariant
            n == fields@.len(),
            fv == fields_view(fields@),
            fv.len() == n,
            forall|k: int| 0 <= k < n ==> #[trigger] fv[k] == (bytes_of(fields@[k].0), json_view(fields@[k].1)),
            u <= n,
            adj@.len() == u,
            forall|x: int| 0 <= x < u ==> #[trigger] row_matches(fv, x, adj@[x]@),
        decreases n - u,
    {
        let mut names: Vec<Vec<u8>> = Vec::new();
        collect_targets(&fields[u].1, &mut names);
        let ghost t = targets(fv[u as int].1);
        assert(names_view(names@) =~= t);
        let mut row: Vec<usize> = Vec::new();
        let mut k: usize = 0;
        while k < names.len()
            invariant
                n == fields@.len(),
                fv == fields_view(fields@),
                fv.len() == n,
                u < n,
                t == targets(fv[u as int].1),
                names_view(names@) == t,
                k <= names@.len(),
                forall|j: int|
                    0 <= j < row@.len() ==> #[trigger] row@[j] < n && dependency_edge(
                        fv,
                        u as int,
                        row@[j] as int,
                    ),
                forall|kk: int, w: int|
                    0 <= kk < k && #[trigger] is_first_key(fv, t[kk], w) ==> row@.contains(
                        w as usize,
                    ),
            decreases names@.len() - k,
        {
            assert(t[k as int] == names@[k as int]@);
            match find_field(fields, names[k].as_slice()) {
                Some(w) => {
                    let ghost before = row@;
                    assert(is_first_key(fv, t[k as int], w as int));
                    assert(dependency_edge(fv, u as int, w as int));
                    row.push(w);
                    assert forall|kk: int, x: int|
                        0 <= kk < k + 1 && #[trigger] is_first_key(fv, t[kk], x) implies row@.contains(
                        x as usize,
                    ) by {
                        if kk == k {
                            assert(row@[before.len() as int] == w);
                        } else {
                            assert(before.contains(x as usize));
                            let j = choose|j: int| 0 <= j < before.len() && before[j] == x as usize;
                            assert(row@[j] == x as usize);
                        }
                    }
                },
                None => {
                    assert forall|kk: int, x: int|
                        0 <= kk < k + 1 && #[trigger] is_first_key(fv, t[kk], x) implies row@.contains(
                        x as usize,
                    ) by {
                        if kk == k {
                            assert(fv[x].0 != t[k as int]);
                        }
                    }
                },
            }
            k = k + 1;
        }
        assert forall|w: int| #[trigger] dependency_edge(fv, u as int, w) implies row@.contains(w as usize) by {
            let kk = choose|kk: int| 0 <= kk < t.len() && #[trigger] is_first_key(fv, t[kk], w);
        }
        assert(row_matches(fv, u as int, row@));
        adj.push(row);
        u = u + 1;
    }
    proof {
        assert forall|x: int, k: int| 0 <= x < rows_view(adj@).len() && 0 <= k < rows_view(adj@)[x].len() implies #[trigger] rows_view(adj@)[x][k] < rows_view(adj@).len() by {
            assert(row_matches(fv, x, adj@[x]@));
        }
    }
    adj
}

/// The dependency edges of a field list are those of its adjacency lists.
proof fn lemma_graph_edges(fields: Seq<(Seq<u8>, JsonValue)>, g: Seq<Seq<usize>>)
    requires
        g.len() == fields.len(),
        g.len() <= usize::MAX,
        forall|u: int| 0 <= u < g.len() ==> #[trigger] row_matches(fields, u, g[u]),
    ensures
        adjacency_edges(g) == logic_edges(JsonValue::Object(fields)),
{
    assert forall|u: int, w: int| #[trigger] adjacency_edges(g)(u, w) == logic_edges(JsonValue::Object(fields))(u, w) by {
        assert(adjacency_edges(g)(u, w) == (0 <= u < g.len() && 0 <= w < g.len() && g[u].contains(w as usize)));
        assert(logic_edges(JsonValue::Object(fields))(u, w) == dependency_edge(fields, u, w));
        if 0 <= u < g.len() && 0 <= w < g.len() {
            assert(row_matches(fields, u, g[u]));
            if g[u].contains(w as usize) {
                let j = choose|j: int| 0 <= j < g[u].len() && g[u][j] == w as usize;
                assert(dependency_edge(fields, u, g[u][j] as int));
            }
            if dependency_edge(fields, u, w) {
                assert(g[u].contains(w as usize));
            }
        } else if dependency_edge(fields, u, w) {
            let k = choose|k: int| 0 <= k < targets(fields[u].1).len() && #[trigger] is_first_key(fields, targets(fields[u].1)[k], w);
        }
    }
    assert(adjacency_edges(g) =~= logic_edges(JsonValue::Object(fields)));
}

/// A logic description that is not an object has no dependency cycle.
proof fn lemma_no_object_no_cycle(v: JsonValue)
    requires
        !(v is Object),
    ensures
        !has_cycle(logic_edges(v)),
        scc_partition(0, logic_edges(v), Seq::empty()),
{
    if has_cycle(logic_edges(v)) {
        let p = choose|p: Seq<int>| is_walk(logic_edges(v), p) && p.len() >= 2 && #[trigger] p[0] == p.last();
        assert(walk_step(logic_edges(v), p, 0));
    }
}

proof fn lemma_cyclic_components_empty(edge: spec_fn(int, int) -> bool, c: Seq<Seq<usize>>)
    ensures
        cyclic_components(edge, c).len() > 0 <==> exists|k: int|
            0 <= k < c.len() && #[trigger] crate::channel_a::graph::cyclic_component(edge, c[k]),
    decreases c.len(),
{
    if c.len() > 0 {
        lemma_cyclic_components_empty(edge, c.drop_last());
        if exists|k: int| 0 <= k < c.len() && #[trigger] crate::channel_a::graph::cyclic_component(edge, c[k]) {
            let k = choose|k: int| 0 <= k < c.len() && #[trigger] crate::channel_a::graph::cyclic_component(edge, c[k]);
            if k < c.len() - 1 {
                assert(c.drop_last()[k] == c[k]);
            }
        }
        if exists|k: int| 0 <= k < c.len() - 1 && #[trigger] crate::channel_a::graph::cyclic_component(edge, c.drop_last()[k]) {
            let k = choose|k: int| 0 <= k < c.len() - 1 && #[trigger] crate::channel_a::graph::cyclic_component(edge, c.drop_last()[k]);
            assert(c[k] == c.drop_last()[k]);
        }
    }
}

/// Why cycle detection failed.
#[derive(Debug)]
pub enum CycleDetectionError {
    /// The logic description is not valid JSON.
    JsonParseError(serde_json::Error),
    /// Reserved for a logic description whose structure cannot be analyzed.
    InvalidAstStructure,
}

/// Whether the dependency graph of a parsed logic description has a cycle: a
/// chain of references among its top-level fields that returns to its start, a
/// field that refers to itself included.
pub fn has_dependency_cycle(j: &Json) -> (r: bool)
    ensures
        r == has_cycle(logic_edges(j@)),
{
    match j {
        Json::Object(fields) => {
            let adj = build_graph(fields);
            let node_total = adj.len();
            let (Ghost(c), cyclic) = cyclic_components_of(&adj);
            proof {
                lemma_fields_view(fields@);
                let g = rows_view(adj@);
                assert forall|u: int| 0 <= u < g.len() implies #[trigger] row_matches(fields_view(fields@), u, g[u]) by {
                    assert(row_matches(fields_view(fields@), u, adj@[u]@));
                }
                lemma_graph_edges(fields_view(fields@), g);
                lemma_cycle_iff_cyclic_component(adj@.len() as int, adjacency_edges(g), c);
                lemma_cyclic_components_empty(adjacency_edges(g), c);
                assert(rows_view(cyclic@).len() == cyclic@.len());
            }
            cyclic.len() > 0
        },
        _ => {
            proof {
                lemma_no_object_no_cycle(j@);
            }
            false
        },
    }
}

/// Whether the dependency graph of a logic description has a cycle. Fails exactly
/// when the text is not JSON.
pub fn detect_cycles(ast_json: &str) -> (r: Result<bool, CycleDetectionError>)
    ensures
        match json_parse(ast_json@) {
            None => r matches Err(e) && e is JsonParseError,
            Some(v) => r matches Ok(b) && b == has_cycle(logic_edges(v)),
        },
{
    match parse_json(ast_json) {
        Ok(j) => Ok(has_dependency_cycle(&j)),
        Err(e) => Err(CycleDetectionError::JsonParseError(e)),
    }
}

/// Names, by key bytes, of the fields in each component.
pub open spec fn component_names(fields: Seq<(Seq<u8>, JsonValue)>, c: Seq<Seq<usize>>) -> Seq<Seq<Seq<u8>>> {
    Seq::new(c.len(), |k: int| Seq::new(c[k].len(), |i: int| fields[c[k][i] as int].0))
}

pub open spec fn groups_view(groups: Seq<Vec<String>>) -> Seq<Seq<Seq<u8>>> {
    Seq::new(groups.len(), |k: int| Seq::new(groups[k]@.len(), |i: int| bytes_of(groups[k]@[i])))
}

/// The names of the fields on a cycle, grouped by strongly connected component.
pub open spec fn cyclic_groups_spec(v: JsonValue, groups: Seq<Vec<String>>) -> bool {
    exists|c: Seq<Seq<usize>>|
        scc_partition(node_count(v), logic_edges(v), c) && groups_view(groups) == component_names(
            match v {
                JsonValue::Object(fields) => fields,
                _ => Seq::empty(),
            },
            cyclic_components(logic_edges(v), c),
        )
}

/// The member names of every strongly connected component of the dependency graph
/// of a parsed logic description that counts as a cycle: more than one field, or
/// one field that refers to itself.
pub fn cyclic_groups(j: &Json) -> (r: Vec<Vec<String>>)
    ensures
        cyclic_groups_spec(j@, r@),
{
    match j {
        Json::Object(fields) => {
            let adj = build_graph(fields);
            let (Ghost(c), cyclic) = cyclic_components_of(&adj);
            let node_total = adj.len();
            let ghost g = rows_view(adj@);
            let ghost fv = fields_view(fields@);
            proof {
                lemma_fields_view(fields@);
                assert forall|u: int| 0 <= u < g.len() implies #[trigger] row_matches(fv, u, g[u]) by {
                    assert(row_matches(fv, u, adj@[u]@));
                }
                lemma_graph_edges(fv, g);
            }
            let ghost cc = cyclic_components(adjacency_edges(g), c);
            let mut groups: Vec<Vec<String>> = Vec::new();
            let mut k: usize = 0;
            while k < cyclic.len()
                invariant
                    fv == fields_view(fields@),
                    fv.len() == fields@.len(),
                    forall|x: int| 0 <= x < fields@.len() ==> #[trigger] fv[x] == (bytes_of(fields@[x].0), json_view(fields@[x].1)),
                    scc_partition(adj@.len() as int, adjacency_edges(g), c),
                    adj@.len() == fields@.len(),
                    rows_view(cyclic@) == cc,
                    cc == cyclic_components(adjacency_edges(g), c),
                    k <= cyclic@.len(),
                    groups@.len() == k,
                    groups_view(groups@) == component_names(fv, cc).take(k as int),
                decreases cyclic@.len() - k,
            {
                let comp = &cyclic[k];
                assert(cc[k as int] == comp@);
                proof {
                    lemma_cyclic_components_members(adjacency_edges(g), c, k as int);
                }
                let mut names: Vec<String> = Vec::new();
                let mut i: usize = 0;
                while i < comp.len()
                    invariant
                        fv == fields_view(fields@),
                        fv.len() == fields@.len(),
                        forall|x: int| 0 <= x < fields@.len() ==> #[trigger] fv[x] == (bytes_of(fields@[x].0), json_view(fields@[x].1)),
                        forall|m: int| 0 <= m < comp@.len() ==> #[trigger] comp@[m] < fields@.len(),
                        i <= comp@.len(),
                        names@.len() == i,
                        forall|m: int| 0 <= m < i ==> #[trigger] bytes_of(names@[m]) == fv[comp@[m] as int].0,
                    decreases comp@.len() - i,
                {
                    let u = comp[i];
                    assert(fv[u as int].0 == bytes_of(fields@[u as int].0));
                    names.push(fields[u].0.clone());
                    i = i + 1;
                }
                let ghost before = groups@;
                let ghost nv = names@;
                assert(Seq::new(nv.len(), |m: int| bytes_of(nv[m])) =~= component_names(fv, cc)[k as int]);
                groups.push(names);
                assert(groups@[k as int]@ == nv);
                assert forall|x: int| 0 <= x < k + 1 implies #[trigger] groups_view(groups@)[x] == component_names(fv, cc).take(k + 1)[x] by {
                    if x < k {
                        assert(groups@[x] == before[x]);
                        assert(groups_view(groups@)[x] == groups_view(before)[x]);
                    }
                }
                assert(groups_view(groups@) =~= component_names(fv, cc).take(k + 1));
                k = k + 1;
            }
            assert(component_names(fv, cc).take(cyclic@.len() as int) =~= component_names(fv, cc));
            assert(j@ == JsonValue::Object(fv));
            assert(adjacency_edges(g) == logic_edges(j@));
            assert(scc_partition(node_count(j@), logic_edges(j@), c));
            assert(groups_view(groups@) == component_names(fv, cyclic_components(logic_edges(j@), c)));
            groups
        },
        _ => {
            proof {
                lemma_no_object_no_cycle(j@);
                let groups: Seq<Vec<String>> = Seq::empty();
                assert(groups_view(groups) =~= component_names(Seq::empty(), cyclic_components(logic_edges(j@), Seq::empty())));
                assert(scc_partition(node_count(j@), logic_edges(j@), Seq::empty()));
            }
            let groups: Vec<Vec<String>> = Vec::new();
            assert(groups_view(groups@) =~= component_names(Seq::empty(), cyclic_components(logic_edges(j@), Seq::empty())));
            groups
        },
    }
}

/// The member names of every strongly connected component of the dependency graph
/// that counts as a cycle. Fails exactly when the text is not JSON.
pub fn find_cycles_detail(ast_json: &str) -> (r: Result<Vec<Vec<String>>, CycleDetectionError>)
    ensures
        match json_parse(ast_json@) {
            None => r matches Err(e) && e is JsonParseError,
            Some(v) => r matches Ok(groups) && cyclic_groups_spec(v, groups@),
        },
{
    match parse_json(ast_json) {
        Ok(j) => Ok(cyclic_groups(&j)),
        Err(e) => Err(CycleDetectionError::JsonParseError(e)),
    }
}

/// Members of a cyclic component are nodes.
proof fn lemma_cyclic_components_members(edge: spec_fn(int, int) -> bool, c: Seq<Seq<usize>>, k: int)
    requires
        0 <= k < cyclic_components(edge, c).len(),
    ensures
        exists|m: int| 0 <= m < c.len() && #[trigger] c[m] == cyclic_components(edge, c)[k],
    decreases c.len(),
{
    if c.len() > 0 {
        let t = cyclic_components(edge, c.drop_last());
        if k < t.len() {
            lemma_cyclic_components_members(edge, c.drop_last(), k);
            let m = choose|m: int| 0 <= m < c.len() - 1 && #[trigger] c.drop_last()[m] == t[k];
            assert(c[m] == c.drop_last()[m]);
        } else {
            assert(c[c.len() - 1] == cyclic_components(edge, c)[k]);
        }
    }
}

// ---------------------------------------------------------------------------
// Laws of cycle detection.
// ---------------------------------------------------------------------------

/// References to names that are no top-level key add no edge, so a logic
/// description whose references all dangle has no cycle.
pub proof fn lemma_dangling_references_no_cycle(fields: Seq<(Seq<u8>, JsonValue)>)
    requires
        forall|u: int, k: int, w: int|
            0 <= u < fields.len() && 0 <= k < targets(fields[u].1).len() && 0 <= w
                < fields.len() ==> #[trigger] fields[w].0 != #[trigger] targets(fields[u].1)[k],
    ensures
        !has_cycle(logic_edges(JsonValue::Object(fields))),
{
    let edge = logic_edges(JsonValue::Object(fields));
    if has_cycle(edge) {
        let p = choose|p: Seq<int>| is_walk(edge, p) && p.len() >= 2 && #[trigger] p[0] == p.last();
        assert(walk_step(edge, p, 0));
        assert(dependency_edge(fields, p[0], p[1]));
        let k = choose|k: int|
            0 <= k < targets(fields[p[0]].1).len() && #[trigger] is_first_key(
                fields,
                targets(fields[p[0]].1)[k],
                p[1],
            );
    }
}

/// A field whose value names its own key is a cycle.
pub proof fn lemma_self_reference_is_cycle(fields: Seq<(Seq<u8>, JsonValue)>, u: int)
    requires
        distinct_by_key(fields),
        0 <= u < fields.len(),
        targets(fields[u].1).contains(fields[u].0),
    ensures
        has_cycle(logic_edges(JsonValue::Object(fields))),
{
    let edge = logic_edges(JsonValue::Object(fields));
    lemma_first_key_of_distinct(fields, u);
    let k = choose|k: int| 0 <= k < targets(fields[u].1).len() && targets(fields[u].1)[k] == fields[u].0;
    assert(is_first_key(fields, targets(fields[u].1)[k], u));
    let p = seq![u, u];
    assert(walk_step(edge, p, 0));
    assert(is_walk(edge, p));
    assert(p[0] == p.last());
}

/// Two fields whose values name each other's keys form a cycle.
pub proof fn lemma_mutual_reference_is_cycle(fields: Seq<(Seq<u8>, JsonValue)>, u: int, w: int)
    requires
        distinct_by_key(fields),
        0 <= u < fields.len(),
        0 <= w < fields.len(),
        targets(fields[u].1).contains(fields[w].0),
        targets(fields[w].1).contains(fields[u].0),
    ensures
        has_cycle(logic_edges(JsonValue::Object(fields))),
{
    let edge = logic_edges(JsonValue::Object(fields));
    lemma_first_key_of_distinct(fields, u);
    lemma_first_key_of_distinct(fields, w);
    let k1 = choose|k: int| 0 <= k < targets(fields[u].1).len() && targets(fields[u].1)[k] == fields[w].0;
    let k2 = choose|k: int| 0 <= k < targets(fields[w].1).len() && targets(fields[w].1)[k] == fields[u].0;
    assert(is_first_key(fields, targets(fields[u].1)[k1], w));
    assert(is_first_key(fields, targets(fields[w].1)[k2], u));
    let p = seq![u, w, u];
    assert(walk_step(edge, p, 0));
    assert(walk_step(edge, p, 1));
    assert(is_walk(edge, p));
    assert(p[0] == p.last());
}

/// With distinct keys, each field is the first with its key.
proof fn lemma_first_key_of_distinct(fields: Seq<(Seq<u8>, JsonValue)>, u: int)
    requires
        distinct_by_key(fields),
        0 <= u < fields.len(),
    ensures
        is_first_key(fields, fields[u].0, u),
{
}

} // verus!
