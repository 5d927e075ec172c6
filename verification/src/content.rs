//! Content trees: their form as data, as HTML and as Markdown.

use vstd::prelude::*;

use crate::json;
use crate::json::Float;
use crate::json::Json;
use crate::json::JsonTree;
use crate::text;
use crate::value;
use crate::value::Number;
use crate::value::Paged;
use crate::value::ServerValue;
use crate::value::SynData;
use crate::value::SynValue;

verus! {

// ---------------------------------------------------------------------------
// The parts of a value are smaller than the value
// ---------------------------------------------------------------------------

proof fn lemma_field_index_in_range(fields: Seq<(String, SynValue)>, key: Seq<char>)
    ensures
        0 <= value::field_index(fields, key) <= fields.len(),
    decreases fields.len(),
{
    if fields.len() > 0 && fields[0].0@ != key {
        lemma_field_index_in_range(fields.drop_first(), key);
    }
}

pub proof fn lemma_field_smaller(v: SynValue, key: Seq<char>)
    ensures
        value::field_of(v, key) matches Some(x) ==> {
            &&& decreases_to!(v => x)
            &&& x.data matches SynData::List(items) ==> decreases_to!(v => items@)
            &&& x.data matches SynData::Mapping(entries) ==> decreases_to!(v => entries@)
        },
{
    if let SynData::Server(s) = v.data {
        if let ServerValue::Node(fields) = *s {
            if let Some(x) = value::field_of(v, key) {
                let i = value::field_index(fields@, key);
                lemma_field_index_in_range(fields@, key);
                assert(x == fields@[i].1);
                assert(decreases_to!(v => v.data));
                assert(decreases_to!(v.data => v.data->Server_0));
                assert(decreases_to!(*s => s->Node_0));
                assert(decreases_to!(fields => fields[i]));
                assert(decreases_to!(fields[i] => fields[i].1));
                assert(decreases_to!(x => x.data));
                if let SynData::List(items) = x.data {
                    assert(decreases_to!(x.data => x.data->List_0));
                    assert(decreases_to!(items => items@));
                }
                if let SynData::Mapping(entries) = x.data {
                    assert(decreases_to!(x.data => x.data->Mapping_0));
                    assert(decreases_to!(entries => entries@));
                }
            }
        }
    }
}

// ---------------------------------------------------------------------------
// As data
// ---------------------------------------------------------------------------

/// The fields of a leaf node that are written out, in this order.
pub open spec fn leaf_keys() -> Seq<Seq<char>> {
    seq!["level"@, "text"@, "href"@, "src"@, "alt"@, "lang"@, "html"@]
}

/// A value as JSON.
pub open spec fn syn_json(v: SynValue) -> JsonTree
    decreases v, 9nat,
{
    match v.data {
        SynData::Nothing => JsonTree::Null,
        SynData::Bool(b) => JsonTree::Bool(b),
        SynData::Number(n) => match n {
            Number::Int(i) => JsonTree::Int(i as int),
            Number::Float(f) => JsonTree::Float(json::float_text(f)),
            Number::Big(digits) => JsonTree::BigInt(digits@),
        },
        SynData::Text(s) => JsonTree::Str(s@),
        SynData::List(items) => JsonTree::Array(syn_jsons(items@, items@.len())),
        SynData::Mapping(entries) => JsonTree::Object(entry_jsons(entries@, entries@.len())),
        SynData::Task(_) => JsonTree::Str(v.shown@),
        SynData::Builtin(_) => JsonTree::Str(v.shown@),
        SynData::Server(s) => match *s {
            ServerValue::Raw { body, content_type, status } => JsonTree::Object(
                seq![
                    ("body"@, JsonTree::Str(body@)),
                    ("content_type"@, JsonTree::Str(content_type@)),
                    ("status"@, JsonTree::Int(status as int)),
                ],
            ),
            ServerValue::Envelope { status, value } => JsonTree::Object(
                seq![("status"@, JsonTree::Int(status as int)), ("value"@, syn_json(value))],
            ),
            ServerValue::Node(_) => node_json(v),
            ServerValue::Content(inner) => node_json(inner),
            ServerValue::Paged(p) => match p.all {
                Some(rows) => JsonTree::Array(syn_jsons(rows@, rows@.len())),
                None => JsonTree::Null,
            },
        },
    }
}

/// The first `n` values as JSON.
pub open spec fn syn_jsons(items: Seq<SynValue>, n: nat) -> Seq<JsonTree>
    decreases items, n,
{
    if n == 0 || n > items.len() {
        seq![]
    } else {
        syn_jsons(items, (n - 1) as nat).push(syn_json(items[n - 1]))
    }
}

/// The first `n` entries as members of an object.
pub open spec fn entry_jsons(entries: Seq<(String, SynValue)>, n: nat) -> Seq<
    (Seq<char>, JsonTree),
>
    decreases entries, n,
{
    if n == 0 || n > entries.len() {
        seq![]
    } else {
        entry_jsons(entries, (n - 1) as nat).push(
            (entries[n - 1].0@, syn_json(entries[n - 1].1)),
        )
    }
}

/// Those of the first `n` values that are nodes, as JSON.
pub open spec fn node_jsons(items: Seq<SynValue>, n: nat) -> Seq<JsonTree>
    decreases items, n,
{
    if n == 0 || n > items.len() {
        seq![]
    } else if items[n - 1].node() {
        node_jsons(items, (n - 1) as nat).push(node_json(items[n - 1]))
    } else {
        node_jsons(items, (n - 1) as nat)
    }
}

/// Metadata as JSON: an object, empty where there is no map.
pub open spec fn meta_json(v: SynValue) -> JsonTree
    decreases v, 0nat,
{
    match value::field_of(v, "meta"@) {
        Some(x) => match x.data {
            SynData::Mapping(entries) => {
                proof {
                    lemma_field_smaller(v, "meta"@);
                }
                JsonTree::Object(entry_jsons(entries@, entries@.len()))
            },
            _ => JsonTree::Object(seq![]),
        },
        None => JsonTree::Object(seq![]),
    }
}

/// The nodes in the field `nodes`, as JSON.
pub open spec fn children_json(v: SynValue) -> JsonTree
    decreases v, 0nat,
{
    match value::field_of(v, "nodes"@) {
        Some(x) => match x.data {
            SynData::List(items) => {
                proof {
                    lemma_field_smaller(v, "nodes"@);
                }
                JsonTree::Array(node_jsons(items@, items@.len()))
            },
            _ => JsonTree::Array(seq![]),
        },
        None => JsonTree::Array(seq![]),
    }
}

/// The values in the field `items`, as JSON.
pub open spec fn items_json(v: SynValue) -> JsonTree
    decreases v, 0nat,
{
    match value::field_of(v, "items"@) {
        Some(x) => match x.data {
            SynData::List(items) => {
                proof {
                    lemma_field_smaller(v, "items"@);
                }
                JsonTree::Array(syn_jsons(items@, items@.len()))
            },
            _ => JsonTree::Array(seq![]),
        },
        None => JsonTree::Array(seq![]),
    }
}

/// The members that the first `n` leaf keys give: those fields that are there and hold
/// something.
pub open spec fn leaf_members(v: SynValue, n: nat) -> Seq<(Seq<char>, JsonTree)>
    decreases v, n,
{
    if n == 0 || n > leaf_keys().len() {
        seq![]
    } else {
        let key = leaf_keys()[n - 1];
        let before = leaf_members(v, (n - 1) as nat);
        match value::field_of(v, key) {
            Some(x) => if x.data is Nothing {
                before
            } else {
                proof {
                    lemma_field_smaller(v, key);
                }
                before.push((key, syn_json(x)))
            },
            None => before,
        }
    }
}

/// A node as JSON.
pub open spec fn node_json(v: SynValue) -> JsonTree
    decreases v, 8nat,
{
    let kind = value::field_text(v, "kind"@);
    if kind == "page"@ {
        JsonTree::Object(
            seq![
                ("type"@, JsonTree::Str("page"@)),
                ("meta"@, meta_json(v)),
                ("nodes"@, children_json(v)),
            ],
        )
    } else if kind == "list"@ || kind == "ordered_list"@ {
        JsonTree::Object(seq![("type"@, JsonTree::Str(kind)), ("items"@, items_json(v))])
    } else if kind == "section"@ {
        JsonTree::Object(seq![("type"@, JsonTree::Str("section"@)), ("nodes"@, children_json(v))])
    } else {
        JsonTree::Object(seq![("type"@, JsonTree::Str(kind))] + leaf_members(v, 7))
    }
}

/// A value as JSON.
pub fn syn_to_json(v: &SynValue) -> (r: Json)
    ensures
        r.tree() == syn_json(*v),
    decreases v, 9nat,
{
    match &v.data {
        SynData::Nothing => Json::Null,
        SynData::Bool(b) => Json::Bool(*b),
        SynData::Number(n) => match n {
            Number::Int(i) => Json::Int(*i),
            Number::Float(f) => Json::Float(copy_float(f)),
            Number::Big(digits) => Json::BigInt(digits.as_str().to_owned()),
        },
        SynData::Text(s) => json::string(s.as_str()),
        SynData::List(items) => {
            assert(decreases_to!(*v => v.data));
            assert(decreases_to!(v.data => v.data->List_0));
            values_to_json(items)
        },
        SynData::Mapping(entries) => {
            assert(decreases_to!(*v => v.data));
            assert(decreases_to!(v.data => v.data->Mapping_0));
            entries_to_json(entries)
        },
        SynData::Task(_) => json::string(v.shown.as_str()),
        SynData::Builtin(_) => json::string(v.shown.as_str()),
        SynData::Server(s) => {
            assert(decreases_to!(*v => v.data));
            assert(decreases_to!(v.data => v.data->Server_0));
            match &**s {
                ServerValue::Raw { body, content_type, status } => json::object3(
                    "body",
                    json::string(body.as_str()),
                    "content_type",
                    json::string(content_type.as_str()),
                    "status",
                    Json::Int(*status),
                ),
                ServerValue::Envelope { status, value } => json::object2(
                    "status",
                    Json::Int(*status),
                    "value",
                    syn_to_json(value),
                ),
                ServerValue::Node(_) => node_to_json(v),
                ServerValue::Content(inner) => node_to_json(inner),
                ServerValue::Paged(p) => match &p.all {
                    Some(rows) => values_to_json(rows),
                    None => Json::Null,
                },
            }
        },
    }
}

fn copy_float(f: &Float) -> (r: Float)
    ensures
        json::float_text(r) == json::float_text(*f),
{
    match f {
        Float::Nan => Float::Nan,
        Float::Infinity => Float::Infinity,
        Float::NegInfinity => Float::NegInfinity,
        Float::Finite { repr, whole } => Float::Finite {
            repr: repr.as_str().to_owned(),
            whole: *whole,
        },
    }
}

/// Values as a JSON array.
pub fn values_to_json(items: &Vec<SynValue>) -> (r: Json)
    ensures
        r.tree() == JsonTree::Array(syn_jsons(items@, items@.len())),
    decreases items, 0nat,
{
    let mut out: Vec<Json> = Vec::new();
    for i in 0..items.len()
        invariant
            out@.len() == i,
            json::array_trees(out@, i as nat) == syn_jsons(items@, i as nat),
    {
        let ghost before = out@;
        assert(decreases_to!(*items => items[i as int]));
        out.push(syn_to_json(&items[i]));
        proof {
            lemma_array_trees_push(before, out@);
        }
    }
    Json::Array(out)
}

/// Entries as a JSON object.
pub fn entries_to_json(entries: &Vec<(String, SynValue)>) -> (r: Json)
    ensures
        r.tree() == JsonTree::Object(entry_jsons(entries@, entries@.len())),
    decreases entries, 0nat,
{
    let mut out: Vec<(String, Json)> = Vec::new();
    for i in 0..entries.len()
        invariant
            out@.len() == i,
            json::object_trees(out@, i as nat) == entry_jsons(entries@, i as nat),
    {
        let ghost before = out@;
        assert(decreases_to!(*entries => entries[i as int]));
        assert(decreases_to!(entries[i as int] => entries[i as int].1));
        out.push((entries[i].0.as_str().to_owned(), syn_to_json(&entries[i].1)));
        proof {
            lemma_object_trees_push(before, out@);
        }
    }
    Json::Object(out)
}

pub proof fn lemma_array_trees_push(before: Seq<Json>, after: Seq<Json>)
    requires
        after.len() == before.len() + 1,
        after.drop_last() =~= before,
    ensures
        json::array_trees(after, after.len()) == json::array_trees(before, before.len()).push(
            after.last().tree(),
        ),
{
    json::lemma_array_trees(before, before.len());
    json::lemma_array_trees(after, before.len());
    assert(json::array_trees(after, before.len()) == json::array_trees(before, before.len()));
}

pub proof fn lemma_object_trees_push(before: Seq<(String, Json)>, after: Seq<(String, Json)>)
    requires
        after.len() == before.len() + 1,
        after.drop_last() =~= before,
    ensures
        json::object_trees(after, after.len()) == json::object_trees(before, before.len()).push(
            (after.last().0@, after.last().1.tree()),
        ),
{
    json::lemma_object_trees(before, before.len());
    json::lemma_object_trees(after, before.len());
    assert(json::object_trees(after, before.len()) == json::object_trees(before, before.len()));
}

/// The nodes among some values, as a JSON array.
fn nodes_to_json(items: &Vec<SynValue>) -> (r: Json)
    ensures
        r.tree() == JsonTree::Array(node_jsons(items@, items@.len())),
    decreases items, 0nat,
{
    let mut out: Vec<Json> = Vec::new();
    for i in 0..items.len()
        invariant
            json::array_trees(out@, out@.len()) == node_jsons(items@, i as nat),
    {
        let ghost before = out@;
        if value::is_node(&items[i]) {
            assert(decreases_to!(*items => items[i as int]));
            out.push(node_to_json(&items[i]));
            proof {
                lemma_array_trees_push(before, out@);
            }
        }
    }
    Json::Array(out)
}

fn meta_to_json(v: &SynValue) -> (r: Json)
    ensures
        r.tree() == meta_json(*v),
    decreases v, 0nat,
{
    proof {
        lemma_field_smaller(*v, "meta"@);
    }
    if let Some(x) = value::node_field(v, "meta") {
        if let SynData::Mapping(entries) = &x.data {
            assert(decreases_to!(x => x.data));
            assert(decreases_to!(x.data => x.data->Mapping_0));
            return entries_to_json(entries);
        }
    }
    let empty: Vec<(String, Json)> = Vec::new();
    Json::Object(empty)
}

fn children_to_json(v: &SynValue) -> (r: Json)
    ensures
        r.tree() == children_json(*v),
    decreases v, 0nat,
{
    proof {
        lemma_field_smaller(*v, "nodes"@);
    }
    if let Some(x) = value::node_field(v, "nodes") {
        if let SynData::List(items) = &x.data {
            assert(decreases_to!(x => x.data));
            assert(decreases_to!(x.data => x.data->List_0));
            return nodes_to_json(items);
        }
    }
    let empty: Vec<Json> = Vec::new();
    Json::Array(empty)
}

fn items_to_json(v: &SynValue) -> (r: Json)
    ensures
        r.tree() == items_json(*v),
    decreases v, 0nat,
{
    proof {
        lemma_field_smaller(*v, "items"@);
    }
    if let Some(x) = value::node_field(v, "items") {
        if let SynData::List(items) = &x.data {
            assert(decreases_to!(x => x.data));
            assert(decreases_to!(x.data => x.data->List_0));
            return values_to_json(items);
        }
    }
    let empty: Vec<Json> = Vec::new();
    Json::Array(empty)
}

fn leaf_key(i: usize) -> (r: &'static str)
    requires
        i < 7,
    ensures
        r@ == leaf_keys()[i as int],
{
    if i == 0 {
        "level"
    } else if i == 1 {
        "text"
    } else if i == 2 {
        "href"
    } else if i == 3 {
        "src"
    } else if i == 4 {
        "alt"
    } else if i == 5 {
        "lang"
    } else {
        "html"
    }
}

/// A node as JSON.
pub fn node_to_json(v: &SynValue) -> (r: Json)
    ensures
        r.tree() == node_json(*v),
    decreases v, 8nat,
{
    let kind = value::node_str(v, "kind");
    let k = kind.as_str();
    if text::str_eq(k, "page") {
        json::object3(
            "type",
            json::string("page"),
            "meta",
            meta_to_json(v),
            "nodes",
            children_to_json(v),
        )
    } else if text::str_eq(k, "list") || text::str_eq(k, "ordered_list") {
        json::object2("type", json::string(k), "items", items_to_json(v))
    } else if text::str_eq(k, "section") {
        json::object2("type", json::string("section"), "nodes", children_to_json(v))
    } else {
        let mut pairs: Vec<(String, Json)> = Vec::new();
        pairs.push(("type".to_owned(), json::string(k)));
        let ghost head = seq![("type"@, JsonTree::Str(k@))];
        proof {
            json::lemma_object_trees(pairs@, 1);
            assert(json::object_trees(pairs@, 1) == head + leaf_members(*v, 0));
        }
        let mut i: usize = 0;
        while i < 7
            invariant
                i <= 7,
                json::object_trees(pairs@, pairs@.len()) == head + leaf_members(*v, i as nat),
            decreases 7 - i,
        {
            let key = leaf_key(i);
            let ghost before = pairs@;
            let ghost done = leaf_members(*v, i as nat);
            if let Some(x) = value::node_field(v, key) {
                if !matches!(x.data, SynData::Nothing) {
                    proof {
                        lemma_field_smaller(*v, key@);
                    }
                    let j = syn_to_json(x);
                    pairs.push((key.to_owned(), j));
                    proof {
                        lemma_object_trees_push(before, pairs@);
                        assert(head + done.push((key@, syn_json(*x))) == (head + done).push(
                            (key@, syn_json(*x)),
                        ));
                    }
                }
            }
            i = i + 1;
        }
        Json::Object(pairs)
    }
}

proof fn lemma_entry_jsons(entries: Seq<(String, SynValue)>, n: nat)
    requires
        n <= entries.len(),
    ensures
        entry_jsons(entries, n).len() == n,
        forall|i: int|
            0 <= i < n ==> #[trigger] entry_jsons(entries, n)[i] == (
                entries[i].0@,
                syn_json(entries[i].1),
            ),
    decreases n,
{
    if n > 0 {
        lemma_entry_jsons(entries, (n - 1) as nat);
    }
}

proof fn lemma_item_jsons(items: Seq<SynValue>, n: nat)
    requires
        n <= items.len(),
    ensures
        syn_jsons(items, n).len() == n,
        forall|i: int| 0 <= i < n ==> #[trigger] syn_jsons(items, n)[i] == syn_json(items[i]),
    decreases n,
{
    if n > 0 {
        lemma_item_jsons(items, (n - 1) as nat);
    }
}

/// The values of a list become the elements of an array, and the entries of a map the members
/// of an object, each one for one and in order.
pub proof fn law_elements_keep_their_order(items: Seq<SynValue>, entries: Seq<(String, SynValue)>)
    ensures
        syn_jsons(items, items.len()) == items.map_values(|x: SynValue| syn_json(x)),
        entry_jsons(entries, entries.len()) == entries.map_values(
            |e: (String, SynValue)| (e.0@, syn_json(e.1)),
        ),
{
    lemma_item_jsons(items, items.len());
    lemma_entry_jsons(entries, entries.len());
    assert(syn_jsons(items, items.len()) =~= items.map_values(|x: SynValue| syn_json(x)));
    assert(entry_jsons(entries, entries.len()) =~= entries.map_values(
        |e: (String, SynValue)| (e.0@, syn_json(e.1)),
    ));
}

/// A value has the JSON form of its kind: nothing is null, truth values, integers and texts
/// are themselves, a list is an array and a map an object; other numbers are the digits that
/// they print, and a task or a builtin is the text that it prints.
pub proof fn law_values_have_their_json_form(v: SynValue)
    ensures
        match v.data {
            SynData::Nothing => syn_json(v) is Null,
            SynData::Bool(b) => syn_json(v) == JsonTree::Bool(b),
            SynData::Number(Number::Int(i)) => syn_json(v) == JsonTree::Int(i as int),
            SynData::Number(Number::Float(f)) => syn_json(v) == JsonTree::Float(
                match f {
                    json::Float::Finite { repr, .. } => repr@,
                    json::Float::Nan => seq!['N', 'a', 'N'],
                    json::Float::Infinity => seq!['I', 'n', 'f', 'i', 'n', 'i', 't', 'y'],
                    json::Float::NegInfinity => seq!['-', 'I', 'n', 'f', 'i', 'n', 'i', 't', 'y'],
                },
            ),
            SynData::Number(Number::Big(digits)) => syn_json(v) == JsonTree::BigInt(digits@),
            SynData::Text(s) => syn_json(v) == JsonTree::Str(s@),
            SynData::List(items) => syn_json(v) == JsonTree::Array(
                items@.map_values(|x: SynValue| syn_json(x)),
            ),
            SynData::Mapping(entries) => syn_json(v) == JsonTree::Object(
                entries@.map_values(|e: (String, SynValue)| (e.0@, syn_json(e.1))),
            ),
            SynData::Task(_) => syn_json(v) == JsonTree::Str(v.shown@),
            SynData::Builtin(_) => syn_json(v) == JsonTree::Str(v.shown@),
            SynData::Server(s) => match *s {
                ServerValue::Raw { body, content_type, status } => syn_json(v) == JsonTree::Object(
                    seq![
                        ("body"@, JsonTree::Str(body@)),
                        ("content_type"@, JsonTree::Str(content_type@)),
                        ("status"@, JsonTree::Int(status as int)),
                    ],
                ),
                ServerValue::Envelope { status, value } => syn_json(v) == JsonTree::Object(
                    seq![("status"@, JsonTree::Int(status as int)), ("value"@, syn_json(value))],
                ),
                ServerValue::Node(_) => syn_json(v) == node_json(v),
                ServerValue::Content(inner) => syn_json(v) == node_json(inner),
                ServerValue::Paged(p) => syn_json(v) == match p.all {
                    Some(rows) => JsonTree::Array(rows@.map_values(|x: SynValue| syn_json(x))),
                    None => JsonTree::Null,
                },
            },
        },
{
    reveal_strlit("NaN");
    reveal_strlit("Infinity");
    reveal_strlit("-Infinity");
    match v.data {
        SynData::Number(Number::Float(f)) => {
            assert("NaN"@ =~= seq!['N', 'a', 'N']);
            assert("Infinity"@ =~= seq!['I', 'n', 'f', 'i', 'n', 'i', 't', 'y']);
            assert("-Infinity"@ =~= seq!['-', 'I', 'n', 'f', 'i', 'n', 'i', 't', 'y']);
        },
        SynData::List(items) => {
            law_elements_keep_their_order(items@, seq![]);
        },
        SynData::Mapping(entries) => {
            law_elements_keep_their_order(seq![], entries@);
        },
        SynData::Server(s) => match *s {
            ServerValue::Paged(p) => match p.all {
                Some(rows) => {
                    law_elements_keep_their_order(rows@, seq![]);
                },
                None => {},
            },
            _ => {},
        },
        _ => {},
    }
}

proof fn lemma_node_jsons(items: Seq<SynValue>, n: nat)
    requires
        n <= items.len(),
    ensures
        node_jsons(items, n) == items.take(n as int).filter(|x: SynValue| x.node()).map_values(
            |x: SynValue| node_json(x),
        ),
    decreases n,
{
    reveal(Seq::filter);
    let p = |x: SynValue| x.node();
    if n > 0 {
        lemma_node_jsons(items, (n - 1) as nat);
        assert(items.take(n as int).drop_last() =~= items.take(n - 1));
        assert(items.take(n as int).last() == items[n - 1]);
        assert(node_jsons(items, n) =~= items.take(n as int).filter(p).map_values(
            |x: SynValue| node_json(x),
        ));
    } else {
        assert(items.take(0).filter(p) =~= Seq::<SynValue>::empty());
        assert(node_jsons(items, n) =~= items.take(0).filter(p).map_values(
            |x: SynValue| node_json(x),
        ));
    }
}

/// Of the elements of a page or a section those that are nodes appear, in order.
pub proof fn law_nodes_of_a_page_as_json(items: Seq<SynValue>)
    ensures
        node_jsons(items, items.len()) == items.filter(|x: SynValue| x.node()).map_values(
            |x: SynValue| node_json(x),
        ),
{
    lemma_node_jsons(items, items.len());
    assert(items.take(items.len() as int) =~= items);
}

} // verus!
