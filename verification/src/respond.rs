//! The response contract: what status and body a handler's value becomes, and how
//! collections are paged.

use indexmap::IndexMap;
use vstd::prelude::*;

use crate::content;
use crate::json;
use crate::json::Json;
use crate::json::JsonTree;
use crate::media;
use crate::media::RawResponse;
use crate::media::RawView;
use crate::numeral;
use crate::outside;
use crate::text;
use crate::value;
use crate::value::NewTree;
use crate::value::NewValue;
use crate::value::ServerValue;
use crate::value::SynData;
use crate::value::SynValue;

verus! {

/// The size of a page where the query names none.
pub const DEFAULT_LIMIT: i64 = 100;

/// The largest size of a page.
pub const MAX_LIMIT: i64 = 1000;

/// The body of a response.
pub enum ResponseBody {
    Json(Json),
    Raw(RawResponse),
}

/// The mathematical content of a body.
pub enum BodyView {
    Json(JsonTree),
    Raw(RawView),
}

impl View for ResponseBody {
    type V = BodyView;

    open spec fn view(&self) -> BodyView {
        match *self {
            ResponseBody::Json(j) => BodyView::Json(j.tree()),
            ResponseBody::Raw(r) => BodyView::Raw(r@),
        }
    }
}

// ---------------------------------------------------------------------------
// Pages
// ---------------------------------------------------------------------------

/// A query parameter as an integer, where it is there and is one.
pub open spec fn query_int(e: Seq<(Seq<char>, Seq<char>)>, key: Seq<char>) -> Option<i64> {
    match outside::lookup(e, key) {
        Some(s) => numeral::i64_of(s),
        None => None,
    }
}

/// The size of the page that a query asks for.
pub open spec fn page_limit(e: Seq<(Seq<char>, Seq<char>)>) -> i64 {
    match query_int(e, "limit"@) {
        Some(n) => if n <= 0 {
            DEFAULT_LIMIT
        } else if n > MAX_LIMIT {
            MAX_LIMIT
        } else {
            n
        },
        None => DEFAULT_LIMIT,
    }
}

/// The position of the first item of the page that a query asks for: its `cursor`, or its
/// `offset` where it has no `cursor`.
pub open spec fn page_offset(e: Seq<(Seq<char>, Seq<char>)>) -> i64 {
    let key = if outside::lookup(e, "cursor"@) is Some {
        "cursor"@
    } else {
        "offset"@
    };
    match query_int(e, key) {
        Some(n) => if n < 0 {
            0
        } else {
            n
        },
        None => 0,
    }
}

/// The end of the page that a query asks for is a machine integer.
pub open spec fn window_fits(e: Seq<(Seq<char>, Seq<char>)>) -> bool {
    page_offset(e) + page_limit(e) <= i64::MAX
}

fn parse_i64_str(s: &str) -> (r: Option<i64>)
    ensures
        r == numeral::i64_of(s@),
{
    let cs = text::chars_of(s);
    numeral::parse_i64(cs.as_slice())
}

/// The size and the start of the page that a query asks for.
pub fn page_window(query: &IndexMap<String, String>) -> (r: (i64, i64))
    ensures
        r.0 == page_limit(outside::entries(*query)),
        r.1 == page_offset(outside::entries(*query)),
        1 <= r.0 <= MAX_LIMIT,
        0 <= r.1,
{
    let asked: Option<i64> = match outside::map_get(query, "limit") {
        Some(s) => parse_i64_str(s.as_str()),
        None => None,
    };
    let mut limit: i64 = match asked {
        Some(n) => n,
        None => DEFAULT_LIMIT,
    };
    if limit <= 0 {
        limit = DEFAULT_LIMIT;
    }
    if limit > MAX_LIMIT {
        limit = MAX_LIMIT;
    }
    let raw_cursor = match outside::map_get(query, "cursor") {
        Some(s) => Some(s),
        None => outside::map_get(query, "offset"),
    };
    let start: Option<i64> = match raw_cursor {
        Some(s) => parse_i64_str(s.as_str()),
        None => None,
    };
    let mut offset: i64 = match start {
        Some(n) => n,
        None => 0,
    };
    if offset < 0 {
        offset = 0;
    }
    (limit, offset)
}

/// Whether the end of the page that a query asks for is a machine integer.
pub fn page_window_fits(query: &IndexMap<String, String>) -> (r: bool)
    ensures
        r == window_fits(outside::entries(*query)),
{
    let (limit, offset) = page_window(query);
    offset <= i64::MAX - limit
}

/// The cursor of the next page, where there is one.
pub open spec fn next_cursor(total: int, limit: int, offset: int) -> Option<int> {
    if offset + limit < total {
        Some(offset + limit)
    } else {
        None
    }
}

/// A page with its place in the collection.
pub open spec fn envelope(
    items: Seq<JsonTree>,
    count: int,
    total: int,
    limit: int,
    offset: int,
) -> JsonTree {
    JsonTree::Object(
        seq![
            ("items"@, JsonTree::Array(items)),
            ("count"@, JsonTree::Int(count)),
            ("total"@, JsonTree::Int(total)),
            (
                "cursor"@,
                match next_cursor(total, limit, offset) {
                    Some(n) => JsonTree::Int(n),
                    None => JsonTree::Null,
                },
            ),
        ],
    )
}

/// Puts a page into its envelope.
pub fn envelope_from_page(items: Vec<Json>, count: i64, total: i64, limit: i64, offset: i64) -> (r:
    Json)
    requires
        i64::MIN <= offset + limit <= i64::MAX,
    ensures
        r.tree() == envelope(
            json::array_trees(items@, items@.len()),
            count as int,
            total as int,
            limit as int,
            offset as int,
        ),
{
    let next = offset + limit;
    let cursor = if next < total {
        Json::Int(next)
    } else {
        Json::Null
    };
    let list = Json::Array(items);
    assert(list.tree() == JsonTree::Array(json::array_trees(items@, items@.len())));
    assert(cursor.tree() == match next_cursor(total as int, limit as int, offset as int) {
        Some(n) => JsonTree::Int(n),
        None => JsonTree::Null,
    });
    let size = Json::Int(count);
    let whole = Json::Int(total);
    assert(size.tree() == JsonTree::Int(count as int));
    assert(whole.tree() == JsonTree::Int(total as int));
    let r = json::object4("items", list, "count", size, "total", whole, "cursor", cursor);
    proof {
        let e = envelope(
            json::array_trees(items@, items@.len()),
            count as int,
            total as int,
            limit as int,
            offset as int,
        );
        assert(r.tree()->Object_0 =~= e->Object_0);
    }
    r
}

/// A number of items as a machine integer.
pub open spec fn as_count(n: nat) -> i64 {
    (n as usize) as i64
}

fn count_of(v: &Vec<SynValue>) -> (r: i64)
    ensures
        r == as_count(v@.len()),
        r <= v@.len(),
{
    let n: usize = v.len();
    assert((n as i64) <= n) by (bit_vector);
    #[verifier::truncate]
    let r = n as i64;
    r
}

/// `x`, brought between zero and `total`.
pub open spec fn brought_in(x: int, total: int) -> int {
    if total < 0 || x < 0 {
        0
    } else if x > total {
        total
    } else {
        x
    }
}

/// The items from `start` up to `end`, as JSON.
pub open spec fn page_jsons(items: Seq<SynValue>, start: int, end: int) -> Seq<JsonTree> {
    content::syn_jsons(items.subrange(start, end), (end - start) as nat)
}

/// The page of a collection that a query asks for, in its envelope.
pub open spec fn paged_json(items: Seq<SynValue>, e: Seq<(Seq<char>, Seq<char>)>) -> JsonTree {
    let total = as_count(items.len()) as int;
    let limit = page_limit(e) as int;
    let offset = page_offset(e) as int;
    let start = brought_in(offset, total);
    let end = brought_in(offset + limit, total);
    envelope(page_jsons(items, start, end), end - start, total, limit, offset)
}

fn values_json(items: &Vec<SynValue>, start: usize, end: usize) -> (r: Vec<Json>)
    requires
        start <= end <= items@.len(),
    ensures
        json::array_trees(r@, r@.len()) == page_jsons(items@, start as int, end as int),
        r@.len() == end - start,
{
    let mut out: Vec<Json> = Vec::new();
    let ghost page = items@.subrange(start as int, end as int);
    for i in start..end
        invariant
            start <= end <= items@.len(),
            page == items@.subrange(start as int, end as int),
            out@.len() == i - start,
            json::array_trees(out@, out@.len()) == content::syn_jsons(page, (i - start) as nat),
    {
        let ghost before = out@;
        out.push(content::syn_to_json(&items[i]));
        proof {
            content::lemma_array_trees_push(before, out@);
            assert(page[i - start] == items@[i as int]);
        }
    }
    out
}

/// The page of a collection that a query asks for.
pub fn paginate(items: &Vec<SynValue>, query: &IndexMap<String, String>) -> (r: Json)
    requires
        window_fits(outside::entries(*query)),
    ensures
        r.tree() == paged_json(items@, outside::entries(*query)),
{
    let total = count_of(items);
    let (limit, offset) = page_window(query);
    let last: i64 = offset + limit;
    let mut start: i64 = if offset < total {
        offset
    } else {
        total
    };
    if start < 0 {
        start = 0;
    }
    let mut end: i64 = if last < total {
        last
    } else {
        total
    };
    if end < 0 {
        end = 0;
    }
    let page = values_json(items, start as usize, end as usize);
    envelope_from_page(page, end - start, total, limit, offset)
}

/// What a fetching function gave: the rows of a page and the size of the collection, or an
/// error.
pub type Fetched = Result<(Vec<SynValue>, i64), String>;

/// A page of rows that were fetched for a query, in its envelope.
pub open spec fn fetched_json(
    rows: Seq<SynValue>,
    total: int,
    e: Seq<(Seq<char>, Seq<char>)>,
) -> JsonTree {
    envelope(
        content::syn_jsons(rows, rows.len()),
        as_count(rows.len()) as int,
        total,
        page_limit(e) as int,
        page_offset(e) as int,
    )
}

/// The page that was fetched for a query: its rows, and the size of the collection as the
/// fetching function counted it.
pub fn paginate_lazy(fetched: Fetched, query: &IndexMap<String, String>) -> (r: Result<
    Json,
    String,
>)
    requires
        window_fits(outside::entries(*query)),
    ensures
        match fetched {
            Ok((rows, total)) => r matches Ok(j) && j.tree() == fetched_json(
                rows@,
                total as int,
                outside::entries(*query),
            ),
            Err(e) => r == Err::<Json, String>(e),
        },
{
    match fetched {
        Ok((rows, total)) => {
            let (limit, offset) = page_window(query);
            let count = count_of(&rows);
            let items = values_json(&rows, 0, rows.len());
            assert(rows@.subrange(0, rows@.len() as int) == rows@);
            Ok(envelope_from_page(items, count, total, limit, offset))
        },
        Err(e) => Err(e),
    }
}

// ---------------------------------------------------------------------------
// Values
// ---------------------------------------------------------------------------

/// How a value takes its form: at once, or from a page that has yet to be fetched.
pub enum Shaped {
    Ready(Json),
    Fetch { fetch: usize, limit: i64, offset: i64 },
}

/// The mathematical content of a form.
pub enum ShapedView {
    Ready(JsonTree),
    Fetch { fetch: usize, limit: int, offset: int },
}

impl View for Shaped {
    type V = ShapedView;

    open spec fn view(&self) -> ShapedView {
        match *self {
            Shaped::Ready(j) => ShapedView::Ready(j.tree()),
            Shaped::Fetch { fetch, limit, offset } => ShapedView::Fetch {
                fetch,
                limit: limit as int,
                offset: offset as int,
            },
        }
    }
}

/// The value is a collection, of which a page is returned.
pub open spec fn is_collection(v: SynValue) -> bool {
    match v.data {
        SynData::List(_) => true,
        SynData::Server(s) => *s is Paged,
        _ => false,
    }
}

/// Whether a value is a collection.
pub fn given_collection(v: &SynValue) -> (r: bool)
    ensures
        r == is_collection(*v),
{
    match &v.data {
        SynData::List(_) => true,
        SynData::Server(s) => match &**s {
            ServerValue::Paged(_) => true,
            _ => false,
        },
        _ => false,
    }
}

/// The form of a value: nothing is null, a collection gives a page, anything else is
/// written whole.
pub open spec fn shaped(value: Option<SynValue>, e: Seq<(Seq<char>, Seq<char>)>) -> ShapedView {
    match value {
        None => ShapedView::Ready(JsonTree::Null),
        Some(v) => match v.data {
            SynData::Nothing => ShapedView::Ready(JsonTree::Null),
            SynData::List(items) => ShapedView::Ready(paged_json(items@, e)),
            SynData::Server(s) => match *s {
                ServerValue::Paged(p) => ShapedView::Fetch {
                    fetch: p.fetch,
                    limit: page_limit(e) as int,
                    offset: page_offset(e) as int,
                },
                _ => ShapedView::Ready(content::syn_json(v)),
            },
            _ => ShapedView::Ready(content::syn_json(v)),
        },
    }
}

/// Gives a value its form.
pub fn shape(value: Option<&SynValue>, query: &IndexMap<String, String>) -> (r: Shaped)
    requires
        value matches Some(v) ==> is_collection(*v) ==> window_fits(outside::entries(*query)),
    ensures
        r@ == shaped(
            match value {
                Some(v) => Some(*v),
                None => None,
            },
            outside::entries(*query),
        ),
{
    match value {
        None => Shaped::Ready(Json::Null),
        Some(v) => match &v.data {
            SynData::Nothing => Shaped::Ready(Json::Null),
            SynData::List(items) => Shaped::Ready(paginate(items, query)),
            SynData::Server(s) => match &**s {
                ServerValue::Paged(p) => {
                    let (limit, offset) = page_window(query);
                    Shaped::Fetch { fetch: p.fetch, limit, offset }
                },
                _ => Shaped::Ready(content::syn_to_json(v)),
            },
            _ => Shaped::Ready(content::syn_to_json(v)),
        },
    }
}

/// A response as far as it is known: complete, or with a page that has yet to be fetched.
pub enum Built {
    Ready { status: u16, body: ResponseBody },
    Fetch { status: u16, fetch: usize, limit: i64, offset: i64 },
}

/// The mathematical content of a response.
pub enum BuiltView {
    Ready { status: u16, body: BodyView },
    Fetch { status: u16, fetch: usize, limit: int, offset: int },
}

impl View for Built {
    type V = BuiltView;

    open spec fn view(&self) -> BuiltView {
        match *self {
            Built::Ready { status, body } => BuiltView::Ready { status, body: body@ },
            Built::Fetch { status, fetch, limit, offset } => BuiltView::Fetch {
                status,
                fetch,
                limit: limit as int,
                offset: offset as int,
            },
        }
    }
}

/// A response with that status and a value of that form.
pub open spec fn with_status(status: u16, form: ShapedView) -> BuiltView {
    match form {
        ShapedView::Ready(j) => BuiltView::Ready { status, body: BodyView::Json(j) },
        ShapedView::Fetch { fetch, limit, offset } => BuiltView::Fetch {
            status,
            fetch,
            limit,
            offset,
        },
    }
}

/// The response to a handler's value: a raw response is written as it is, an envelope
/// carries its own status, everything else is answered 200.
pub open spec fn built(give: Option<SynValue>, e: Seq<(Seq<char>, Seq<char>)>) -> BuiltView {
    match give {
        Some(v) => match v.data {
            SynData::Server(s) => match *s {
                ServerValue::Raw { body, content_type, status } => BuiltView::Ready {
                    status: status as u16,
                    body: BodyView::Raw(media::raw_text(body@, content_type@, status as u16)),
                },
                ServerValue::Envelope { status, value } => with_status(
                    status as u16,
                    shaped(Some(value), e),
                ),
                _ => with_status(200, shaped(give, e)),
            },
            _ => with_status(200, shaped(give, e)),
        },
        None => with_status(200, shaped(give, e)),
    }
}

/// The value whose form becomes the body: what an envelope holds, or the value itself.
pub open spec fn payload_of(v: SynValue) -> SynValue {
    match v.data {
        SynData::Server(s) => match *s {
            ServerValue::Envelope { status, value } => value,
            _ => v,
        },
        _ => v,
    }
}

fn with_form(status: u16, form: Shaped) -> (r: Built)
    ensures
        r@ == with_status(status, form@),
{
    match form {
        Shaped::Ready(j) => Built::Ready { status, body: ResponseBody::Json(j) },
        Shaped::Fetch { fetch, limit, offset } => Built::Fetch { status, fetch, limit, offset },
    }
}

/// The lower sixteen bits of a status.
fn status_u16(status: i64) -> (r: u16)
    ensures
        r == status as u16,
{
    #[verifier::truncate]
    let r = status as u16;
    r
}

/// Makes the response to a handler's value.
pub fn build_response(give: Option<&SynValue>, query: &IndexMap<String, String>) -> (r: Built)
    requires
        give matches Some(v) ==> is_collection(payload_of(*v)) ==> window_fits(
            outside::entries(*query),
        ),
    ensures
        r@ == built(
            match give {
                Some(v) => Some(*v),
                None => None,
            },
            outside::entries(*query),
        ),
{
    if let Some(v) = give {
        if let SynData::Server(s) = &v.data {
            match &**s {
                ServerValue::Raw { body, content_type, status } => {
                    let code = status_u16(*status);
                    return Built::Ready {
                        status: code,
                        body: ResponseBody::Raw(
                            RawResponse::text(body.as_str(), content_type.as_str(), code),
                        ),
                    };
                },
                ServerValue::Envelope { status, value } => {
                    return with_form(status_u16(*status), shape(Some(value), query));
                },
                _ => {},
            }
        }
    }
    with_form(200, shape(give, query))
}

// ---------------------------------------------------------------------------
// Request documents
// ---------------------------------------------------------------------------

/// A JSON document that came with a request. A number is held as an integer where it is
/// one that fits, and as a numeral where it can be read as a floating-point number.
pub enum JsonBody {
    Null,
    Bool(bool),
    Number { integer: Option<i64>, float: Option<String> },
    Str(String),
    Array(Vec<JsonBody>),
    /// Keys with their values, no key twice.
    Object(Vec<(String, JsonBody)>),
}

/// The mathematical content of a request document.
pub enum JsonDoc {
    Null,
    Bool(bool),
    Number { integer: Option<i64>, float: Option<Seq<char>> },
    Str(Seq<char>),
    Array(Seq<JsonDoc>),
    Object(Seq<(Seq<char>, JsonDoc)>),
}

/// The contents of the first `n` documents.
pub open spec fn array_docs(v: Seq<JsonBody>, n: nat) -> Seq<JsonDoc>
    decreases v, n,
{
    if n == 0 || n > v.len() {
        seq![]
    } else {
        array_docs(v, (n - 1) as nat).push(v[n - 1].doc())
    }
}

/// The contents of the first `n` members.
pub open spec fn object_docs(v: Seq<(String, JsonBody)>, n: nat) -> Seq<(Seq<char>, JsonDoc)>
    decreases v, n,
{
    if n == 0 || n > v.len() {
        seq![]
    } else {
        object_docs(v, (n - 1) as nat).push((v[n - 1].0@, v[n - 1].1.doc()))
    }
}

impl JsonBody {
    /// The content of this document.
    pub open spec fn doc(&self) -> JsonDoc
        decreases self, 0nat,
    {
        match *self {
            JsonBody::Null => JsonDoc::Null,
            JsonBody::Bool(b) => JsonDoc::Bool(b),
            JsonBody::Number { integer, float } => JsonDoc::Number {
                integer,
                float: text::maybe(float),
            },
            JsonBody::Str(s) => JsonDoc::Str(s@),
            JsonBody::Array(v) => JsonDoc::Array(array_docs(v@, v@.len())),
            JsonBody::Object(v) => JsonDoc::Object(object_docs(v@, v@.len())),
        }
    }
}

proof fn lemma_array_docs(v: Seq<JsonBody>, n: nat)
    requires
        n <= v.len(),
    ensures
        array_docs(v, n).len() == n,
        forall|i: int| 0 <= i < n ==> #[trigger] array_docs(v, n)[i] == v[i].doc(),
    decreases n,
{
    if n > 0 {
        lemma_array_docs(v, (n - 1) as nat);
    }
}

proof fn lemma_object_docs(v: Seq<(String, JsonBody)>, n: nat)
    requires
        n <= v.len(),
    ensures
        object_docs(v, n).len() == n,
        forall|i: int| 0 <= i < n ==> #[trigger] object_docs(v, n)[i] == (v[i].0@, v[i].1.doc()),
    decreases n,
{
    if n > 0 {
        lemma_object_docs(v, (n - 1) as nat);
    }
}

/// A request document as a value of the language: integers before floating-point numbers,
/// and zero for a number that is neither.
pub open spec fn doc_value(d: JsonDoc) -> NewTree
    decreases d, 0nat,
{
    match d {
        JsonDoc::Null => NewTree::Nothing,
        JsonDoc::Bool(x) => NewTree::Bool(x),
        JsonDoc::Number { integer, float } => match integer {
            Some(i) => NewTree::Int(i as int),
            None => match float {
                Some(f) => NewTree::Float(f),
                None => NewTree::Int(0),
            },
        },
        JsonDoc::Str(s) => NewTree::Text(s),
        JsonDoc::Array(items) => NewTree::List(doc_values(items, items.len())),
        JsonDoc::Object(members) => NewTree::Mapping(doc_entries(members, members.len())),
    }
}

/// The first `n` documents as values.
pub open spec fn doc_values(items: Seq<JsonDoc>, n: nat) -> Seq<NewTree>
    decreases items, n,
{
    if n == 0 || n > items.len() {
        seq![]
    } else {
        doc_values(items, (n - 1) as nat).push(doc_value(items[n - 1]))
    }
}

/// The first `n` members as entries.
pub open spec fn doc_entries(members: Seq<(Seq<char>, JsonDoc)>, n: nat) -> Seq<
    (Seq<char>, NewTree),
>
    decreases members, n,
{
    if n == 0 || n > members.len() {
        seq![]
    } else {
        doc_entries(members, (n - 1) as nat).push(
            (members[n - 1].0, doc_value(members[n - 1].1)),
        )
    }
}

/// A request document in plain values as a value of the language.
pub fn body_to_syn(b: &JsonBody) -> (r: NewValue)
    ensures
        r.tree() == doc_value(b.doc()),
    decreases b,
{
    match b {
        JsonBody::Null => NewValue::Nothing,
        JsonBody::Bool(x) => NewValue::Bool(*x),
        JsonBody::Number { integer, float } => match integer {
            Some(i) => NewValue::Int(*i),
            None => match float {
                Some(f) => NewValue::Float(f.as_str().to_owned()),
                None => NewValue::Int(0),
            },
        },
        JsonBody::Str(s) => NewValue::Text(s.as_str().to_owned()),
        JsonBody::Array(items) => {
            assert(decreases_to!(*b => b->Array_0));
            let ghost docs = array_docs(items@, items@.len());
            proof {
                lemma_array_docs(items@, items@.len());
            }
            let mut out: Vec<NewValue> = Vec::new();
            for i in 0..items.len()
                invariant
                    decreases_to!(*b => *items),
                    docs.len() == items@.len(),
                    forall|j: int| 0 <= j < docs.len() ==> #[trigger] docs[j] == items@[j].doc(),
                    out@.len() == i,
                    value::list_trees(out@, out@.len()) == doc_values(docs, i as nat),
            {
                assert(decreases_to!(*items => items[i as int]));
                let ghost before = out@;
                out.push(body_to_syn(&items[i]));
                proof {
                    value::lemma_list_trees_push(before, out@);
                    assert(docs[i as int] == items@[i as int].doc());
                }
            }
            NewValue::List(out)
        },
        JsonBody::Object(members) => {
            assert(decreases_to!(*b => b->Object_0));
            let ghost docs = object_docs(members@, members@.len());
            proof {
                lemma_object_docs(members@, members@.len());
            }
            let mut out: Vec<(String, NewValue)> = Vec::new();
            for i in 0..members.len()
                invariant
                    decreases_to!(*b => *members),
                    docs.len() == members@.len(),
                    forall|j: int|
                        0 <= j < docs.len() ==> #[trigger] docs[j] == (
                            members@[j].0@,
                            members@[j].1.doc(),
                        ),
                    out@.len() == i,
                    value::map_trees(out@, out@.len()) == doc_entries(docs, i as nat),
            {
                assert(decreases_to!(*members => members[i as int]));
                assert(decreases_to!(members[i as int] => members[i as int].1));
                let ghost before = out@;
                out.push((members[i].0.as_str().to_owned(), body_to_syn(&members[i].1)));
                proof {
                    value::lemma_map_trees_push(before, out@);
                    assert(docs[i as int] == (members@[i as int].0@, members@[i as int].1.doc()));
                }
            }
            NewValue::Mapping(out)
        },
    }
}

/// A parsed request document as a value of the language.
pub fn json_to_syn(v: &serde_json::Value) -> (r: NewValue)
    ensures
        r.tree() == doc_value(outside::document(*v)),
{
    body_to_syn(&outside::read_document(v))
}

// ---------------------------------------------------------------------------
// Laws
// ---------------------------------------------------------------------------

/// A page holds between one and `MAX_LIMIT` items at most and starts at no negative place,
/// whatever the query says.
pub proof fn law_page_is_bounded(e: Seq<(Seq<char>, Seq<char>)>)
    ensures
        1 <= page_limit(e) <= MAX_LIMIT,
        page_offset(e) >= 0,
{
}

/// The positions of the items on the page that starts at `offset`.
pub open spec fn page_positions(total: int, limit: int, offset: int) -> (int, int) {
    (brought_in(offset, total), brought_in(offset + limit, total))
}

/// The cursor leads to the item after the last one of the page, and where there is none the
/// page reaches the end of the collection: following cursors from the start passes every item
/// once and stops.
pub proof fn law_cursor_continues_the_page(total: int, limit: int, offset: int)
    requires
        limit >= 1,
        0 <= offset <= total,
    ensures
        ({
            let (start, end) = page_positions(total, limit, offset);
            &&& start == offset
            &&& start <= end <= total
            &&& end - start <= limit
            &&& next_cursor(total, limit, offset) matches Some(next) ==> {
                &&& next == end
                &&& offset < next < total
                &&& end - start == limit
            }
            &&& next_cursor(total, limit, offset) is None ==> end == total
        }),
{
}

/// The items that are passed when the cursors are followed from `offset` on: the page there
/// and, where it has a cursor, the pages from the cursor on.
pub open spec fn walked<T>(items: Seq<T>, limit: int, offset: int) -> Seq<T>
    decreases items.len() - offset,
{
    let total = items.len() as int;
    let (start, end) = page_positions(total, limit, offset);
    let page = items.subrange(start, end);
    match next_cursor(total, limit, offset) {
        Some(next) => if limit >= 1 && 0 <= offset {
            page + walked(items, limit, next)
        } else {
            page
        },
        None => page,
    }
}

/// Following the cursors from the first page on gives the whole collection, in its order,
/// for every size of page.
pub proof fn law_pages_make_up_the_collection<T>(items: Seq<T>, limit: int)
    requires
        limit >= 1,
    ensures
        walked(items, limit, 0) == items,
{
    lemma_walked(items, limit, 0);
    assert(items.skip(0) == items);
}

proof fn lemma_walked<T>(items: Seq<T>, limit: int, offset: int)
    requires
        limit >= 1,
        0 <= offset <= items.len(),
    ensures
        walked(items, limit, offset) == items.skip(offset),
    decreases items.len() - offset,
{
    let total = items.len() as int;
    law_cursor_continues_the_page(total, limit, offset);
    let (start, end) = page_positions(total, limit, offset);
    if let Some(next) = next_cursor(total, limit, offset) {
        lemma_walked(items, limit, next);
        assert(items.subrange(start, end) + items.skip(next) == items.skip(offset));
    } else {
        assert(items.subrange(start, end) == items.skip(offset));
    }
}

/// The page of a collection says how many items it holds, how many there are, and where to
/// go on.
pub proof fn law_page_counts(items: Seq<SynValue>, e: Seq<(Seq<char>, Seq<char>)>)
    requires
        items.len() <= i64::MAX,
        items.len() <= usize::MAX,
    ensures
        ({
            let total = items.len() as int;
            let (start, end) = page_positions(total, page_limit(e) as int, page_offset(e) as int);
            &&& 0 <= start <= end <= total
            &&& end - start <= MAX_LIMIT
            &&& paged_json(items, e) == envelope(
                content::syn_jsons(items.subrange(start, end), (end - start) as nat),
                end - start,
                total,
                page_limit(e) as int,
                page_offset(e) as int,
            )
        }),
{
}

/// The cursor of a page, sent back as the `cursor` of a query, starts the next page where it
/// says.
pub proof fn law_cursor_is_read_back(e: Seq<(Seq<char>, Seq<char>)>, next: i64)
    requires
        next >= 0,
        outside::lookup(e, "cursor"@) == Some(numeral::signed_decimal(next as int)),
    ensures
        page_offset(e) == next,
{
    numeral::law_integers_read_back(next);
}

// ---------------------------------------------------------------------------
// Walking a collection, page by page
// ---------------------------------------------------------------------------

/// The items that a page holds.
pub open spec fn page_items(page: JsonTree) -> Seq<JsonTree> {
    page->Object_0[0].1->Array_0
}

/// How many items a page says that it holds.
pub open spec fn page_count(page: JsonTree) -> int {
    page->Object_0[1].1->Int_0
}

/// How many items a page says that there are.
pub open spec fn page_total(page: JsonTree) -> int {
    page->Object_0[2].1->Int_0
}

/// Where a page says that the next one starts.
pub open spec fn page_cursor(page: JsonTree) -> Option<int> {
    match page->Object_0[3].1 {
        JsonTree::Int(n) => Some(n),
        _ => None,
    }
}

/// A query asks for a page of that size, at that cursor or at the start.
pub open spec fn asks(e: Seq<(Seq<char>, Seq<char>)>, limit: int, cursor: Option<int>) -> bool {
    &&& outside::lookup(e, "limit"@) == Some(numeral::signed_decimal(limit))
    &&& match cursor {
        Some(c) => outside::lookup(e, "cursor"@) == Some(numeral::signed_decimal(c)),
        None => outside::lookup(e, "cursor"@) is None && outside::lookup(e, "offset"@) is None,
    }
}

/// The query of number `k` asks for the page that the cursor of the page before leads to.
pub open spec fn goes_on(
    items: Seq<SynValue>,
    limit: int,
    queries: Seq<Seq<(Seq<char>, Seq<char>)>>,
    k: int,
) -> bool {
    let cursor = page_cursor(paged_json(items, queries[k - 1]));
    cursor is Some && asks(queries[k], limit, cursor)
}

/// The queries ask for the first page, then each with the cursor of the page before, until a
/// page has none.
pub open spec fn is_walk(
    items: Seq<SynValue>,
    limit: int,
    queries: Seq<Seq<(Seq<char>, Seq<char>)>>,
) -> bool {
    &&& queries.len() > 0
    &&& asks(queries[0], limit, None)
    &&& forall|k: int| 1 <= k < queries.len() ==> #[trigger] goes_on(items, limit, queries, k)
    &&& page_cursor(paged_json(items, queries.last())) is None
}

/// The items of the pages that queries ask for, laid end to end.
pub open spec fn pages_laid(
    items: Seq<SynValue>,
    queries: Seq<Seq<(Seq<char>, Seq<char>)>>,
) -> Seq<JsonTree>
    decreases queries.len(),
{
    if queries.len() == 0 {
        seq![]
    } else {
        pages_laid(items, queries.drop_last()) + page_items(paged_json(items, queries.last()))
    }
}

proof fn lemma_syn_jsons(v: Seq<SynValue>, n: nat)
    requires
        n <= v.len(),
    ensures
        content::syn_jsons(v, n).len() == n,
        forall|i: int|
            0 <= i < n ==> #[trigger] content::syn_jsons(v, n)[i] == content::syn_json(v[i]),
    decreases n,
{
    if n > 0 {
        lemma_syn_jsons(v, (n - 1) as nat);
    }
}

/// Where page `k` starts.
spec fn page_start(k: int, limit: int) -> int
    decreases k,
{
    if k <= 0 {
        0
    } else {
        page_start(k - 1, limit) + limit
    }
}

proof fn lemma_page_start(k: int, limit: int)
    requires
        k >= 0,
    ensures
        page_start(k, limit) == k * limit,
    decreases k,
{
    if k > 0 {
        lemma_page_start(k - 1, limit);
        assert((k - 1) * limit + limit == k * limit) by (nonlinear_arith);
    } else {
        assert(k * limit == 0) by (nonlinear_arith)
            requires
                k == 0,
        ;
    }
}

/// Where the page that starts at `start` ends.
spec fn page_end(n: int, limit: int, start: int) -> int {
    if start + limit < n {
        start + limit
    } else {
        n
    }
}

/// A page is what it says.
spec fn is_page(items: Seq<SynValue>, limit: int, start: int, page: JsonTree) -> bool {
    let n = items.len() as int;
    let end = page_end(n, limit, start);
    &&& page_items(page) == content::syn_jsons(items.subrange(start, end), (end - start) as nat)
    &&& page_count(page) == end - start
    &&& page_total(page) == n
    &&& page_cursor(page) == next_cursor(n, limit, start)
}

proof fn lemma_page(
    items: Seq<SynValue>,
    limit: int,
    start: int,
    e: Seq<(Seq<char>, Seq<char>)>,
)
    requires
        1 <= limit <= MAX_LIMIT,
        items.len() <= i64::MAX,
        items.len() <= usize::MAX,
        page_limit(e) == limit,
        page_offset(e) == start,
        0 <= start <= items.len(),
    ensures
        is_page(items, limit, start, paged_json(items, e)),
{
    law_page_counts(items, e);
}

proof fn lemma_walk_page(
    items: Seq<SynValue>,
    limit: int,
    queries: Seq<Seq<(Seq<char>, Seq<char>)>>,
    k: int,
)
    requires
        1 <= limit <= MAX_LIMIT,
        items.len() <= i64::MAX,
        items.len() <= usize::MAX,
        is_walk(items, limit, queries),
        0 <= k < queries.len(),
    ensures
        0 <= page_start(k, limit) <= items.len(),
        k > 0 ==> page_start(k, limit) < items.len(),
        is_page(items, limit, page_start(k, limit), paged_json(items, queries[k])),
        page_limit(queries[k]) == limit,
        page_offset(queries[k]) == page_start(k, limit),
    decreases k,
{
    let e = queries[k];
    numeral::law_integers_read_back(limit as i64);
    if k > 0 {
        lemma_walk_page(items, limit, queries, k - 1);
        assert(goes_on(items, limit, queries, k));
        let c = page_cursor(paged_json(items, queries[k - 1]))->0;
        assert(c == page_start(k, limit));
        law_cursor_is_read_back(e, c as i64);
    }
    assert(page_limit(e) == limit);
    assert(page_offset(e) == page_start(k, limit));
    lemma_page(items, limit, page_start(k, limit), e);
}

proof fn lemma_pages_laid(
    items: Seq<SynValue>,
    limit: int,
    queries: Seq<Seq<(Seq<char>, Seq<char>)>>,
    k: int,
)
    requires
        1 <= limit <= MAX_LIMIT,
        items.len() <= i64::MAX,
        items.len() <= usize::MAX,
        is_walk(items, limit, queries),
        0 < k <= queries.len(),
    ensures
        pages_laid(items, queries.take(k)) == content::syn_jsons(
            items,
            page_end(items.len() as int, limit, page_start(k - 1, limit)) as nat,
        ),
    decreases k,
{
    let n = items.len() as int;
    let start = page_start(k - 1, limit);
    let end = page_end(n, limit, start);
    let taken = queries.take(k);
    lemma_walk_page(items, limit, queries, k - 1);
    assert(taken.drop_last() =~= queries.take(k - 1));
    assert(taken.last() == queries[k - 1]);
    if k > 1 {
        lemma_pages_laid(items, limit, queries, k - 1);
    } else {
        assert(queries.take(0) =~= seq![]);
    }
    assert(pages_laid(items, queries.take(k - 1)) == content::syn_jsons(items, start as nat));
    lemma_syn_jsons(items, start as nat);
    lemma_syn_jsons(items, end as nat);
    lemma_syn_jsons(items.subrange(start, end), (end - start) as nat);
    assert(content::syn_jsons(items, start as nat) + content::syn_jsons(
        items.subrange(start, end),
        (end - start) as nat,
    ) =~= content::syn_jsons(items, end as nat));
}

/// Asking for the first page and then with each cursor for the next gives every item of the
/// collection once and in order, on as many pages as the collection fills and one at least;
/// every page says truly how many items it holds and how many there are. The collection has
/// no more items than the counters can hold, which is so of every `Vec`, and every page can be
/// asked for, unless the collection fills the counters to within one page.
pub proof fn law_walk_gives_the_collection(
    items: Seq<SynValue>,
    limit: int,
    queries: Seq<Seq<(Seq<char>, Seq<char>)>>,
)
    requires
        1 <= limit <= MAX_LIMIT,
        items.len() <= i64::MAX,
        items.len() <= usize::MAX,
        is_walk(items, limit, queries),
    ensures
        pages_laid(items, queries) == content::syn_jsons(items, items.len()),
        forall|k: int|
            0 <= k < queries.len() ==> {
                let page = paged_json(items, #[trigger] queries[k]);
                &&& page_total(page) == items.len()
                &&& page_count(page) == page_items(page).len()
                &&& page_count(page) <= limit
            },
        items.len() + limit <= i64::MAX ==> forall|k: int|
            0 <= k < queries.len() ==> window_fits(#[trigger] queries[k]),
        queries.len() == if items.len() == 0 {
            1
        } else {
            (items.len() + limit - 1) / limit
        },
{
    let n = items.len() as int;
    let q = queries.len() as int;
    lemma_walk_page(items, limit, queries, q - 1);
    lemma_pages_laid(items, limit, queries, q);
    assert(queries.take(q) =~= queries);
    assert forall|k: int| 0 <= k < queries.len() implies {
        let page = paged_json(items, #[trigger] queries[k]);
        &&& page_total(page) == items.len()
        &&& page_count(page) == page_items(page).len()
        &&& page_count(page) <= limit
    } by {
        lemma_walk_page(items, limit, queries, k);
        let start = page_start(k, limit);
        let end = page_end(n, limit, start);
        lemma_syn_jsons(items.subrange(start, end), (end - start) as nat);
    }
    assert forall|k: int| 0 <= k < queries.len() && items.len() + limit <= i64::MAX implies window_fits(
        #[trigger] queries[k],
    ) by {
        lemma_walk_page(items, limit, queries, k);
    }
    lemma_page_start(q - 1, limit);
    if n > 0 {
        assert((n + limit - 1) / limit == q) by (nonlinear_arith)
            requires
                limit >= 1,
                (q - 1) * limit < n,
                n <= (q - 1) * limit + limit,
        ;
    }
}

/// The value is made of nothing, truth values, machine integers and texts, in lists and maps.
pub open spec fn is_plain(v: SynValue) -> bool
    decreases v,
{
    match v.data {
        SynData::Nothing => true,
        SynData::Bool(_) => true,
        SynData::Number(n) => n is Int,
        SynData::Text(_) => true,
        SynData::List(items) => forall|i: int|
            0 <= i < items@.len() ==> is_plain(#[trigger] items@[i]),
        SynData::Mapping(entries) => forall|i: int|
            0 <= i < entries@.len() ==> is_plain((#[trigger] entries@[i]).1),
        _ => false,
    }
}

/// `d` is what a reader of JSON finds in a document with the content `t`.
pub open spec fn is_document_of(d: JsonDoc, t: JsonTree) -> bool
    decreases t,
{
    match t {
        JsonTree::Null => d is Null,
        JsonTree::Bool(b) => d == JsonDoc::Bool(b),
        JsonTree::Int(i) => d matches JsonDoc::Number { integer, float } && integer matches Some(k)
            && k == i,
        JsonTree::Str(s) => d == JsonDoc::Str(s),
        JsonTree::Array(ts) => {
            &&& d matches JsonDoc::Array(ds)
            &&& ds.len() == ts.len()
            &&& forall|i: int| 0 <= i < ts.len() ==> is_document_of(ds[i], #[trigger] ts[i])
        },
        JsonTree::Object(ts) => {
            &&& d matches JsonDoc::Object(ds)
            &&& ds.len() == ts.len()
            &&& forall|i: int|
                0 <= i < ts.len() ==> ds[i].0 == (#[trigger] ts[i]).0 && is_document_of(
                    ds[i].1,
                    ts[i].1,
                )
        },
        _ => false,
    }
}

/// `t` has the content of `v`.
pub open spec fn has_content(t: NewTree, v: SynValue) -> bool
    decreases t,
{
    match t {
        NewTree::Nothing => v.data is Nothing,
        NewTree::Bool(b) => v.data == SynData::Bool(b),
        NewTree::Int(i) => v.data matches SynData::Number(n) && n matches value::Number::Int(
            k,
        ) && k == i,
        NewTree::Text(s) => v.data matches SynData::Text(x) && x@ == s,
        NewTree::List(ts) => {
            &&& v.data matches SynData::List(items)
            &&& items@.len() == ts.len()
            &&& forall|i: int| 0 <= i < ts.len() ==> has_content(#[trigger] ts[i], items@[i])
        },
        NewTree::Mapping(ts) => {
            &&& v.data matches SynData::Mapping(entries)
            &&& entries@.len() == ts.len()
            &&& forall|i: int|
                0 <= i < ts.len() ==> (#[trigger] ts[i]).0 == entries@[i].0@ && has_content(
                    ts[i].1,
                    entries@[i].1,
                )
        },
        _ => false,
    }
}

proof fn lemma_doc_values(items: Seq<JsonDoc>, n: nat)
    requires
        n <= items.len(),
    ensures
        doc_values(items, n).len() == n,
        forall|i: int| 0 <= i < n ==> #[trigger] doc_values(items, n)[i] == doc_value(items[i]),
    decreases n,
{
    if n > 0 {
        lemma_doc_values(items, (n - 1) as nat);
    }
}

proof fn lemma_doc_entries(members: Seq<(Seq<char>, JsonDoc)>, n: nat)
    requires
        n <= members.len(),
    ensures
        doc_entries(members, n).len() == n,
        forall|i: int|
            0 <= i < n ==> #[trigger] doc_entries(members, n)[i] == (
                members[i].0,
                doc_value(members[i].1),
            ),
    decreases n,
{
    if n > 0 {
        lemma_doc_entries(members, (n - 1) as nat);
    }
}

/// A value that is answered as JSON and sent back in a request is the same value: for every
/// plain value, what a handler is given of a document that holds its JSON form has its
/// content, truth values, integers, texts, the order of lists and the entries of maps alike.
pub proof fn law_values_come_back(v: SynValue, d: JsonDoc)
    requires
        is_plain(v),
        is_document_of(d, content::syn_json(v)),
    ensures
        has_content(doc_value(d), v),
    decreases v,
{
    content::law_values_have_their_json_form(v);
    match v.data {
        SynData::List(items) => {
            let ts = content::syn_json(v)->Array_0;
            let ds = d->Array_0;
            lemma_doc_values(ds, ds.len());
            assert forall|i: int| 0 <= i < ts.len() implies has_content(
                #[trigger] doc_values(ds, ds.len())[i],
                items@[i],
            ) by {
                assert(ts[i] == content::syn_json(items@[i]));
                assert(decreases_to!(v => v.data));
                assert(decreases_to!(v.data => v.data->List_0));
                assert(decreases_to!(items => items@));
                assert(decreases_to!(items@ => items@[i]));
                law_values_come_back(items@[i], ds[i]);
            }
        },
        SynData::Mapping(entries) => {
            let ts = content::syn_json(v)->Object_0;
            let ds = d->Object_0;
            lemma_doc_entries(ds, ds.len());
            assert forall|i: int| 0 <= i < ts.len() implies (#[trigger] doc_entries(
                ds,
                ds.len(),
            )[i]).0 == entries@[i].0@ && has_content(
                doc_entries(ds, ds.len())[i].1,
                entries@[i].1,
            ) by {
                assert(ts[i] == (entries@[i].0@, content::syn_json(entries@[i].1)));
                assert(decreases_to!(v => v.data));
                assert(decreases_to!(v.data => v.data->Mapping_0));
                assert(decreases_to!(entries => entries@));
                assert(decreases_to!(entries@ => entries@[i]));
                assert(decreases_to!(entries@[i] => entries@[i].1));
                law_values_come_back(entries@[i].1, ds[i].1);
            }
        },
        _ => {},
    }
}

/// A document becomes the value of its kind: null is nothing, truth values, texts and
/// integers are themselves, an array is a list and an object a map, each one for one and in
/// order; a number that is no machine integer is a floating-point number.
pub proof fn law_documents_become_values(d: JsonDoc)
    ensures
        match d {
            JsonDoc::Null => doc_value(d) is Nothing,
            JsonDoc::Bool(b) => doc_value(d) == NewTree::Bool(b),
            JsonDoc::Number { integer, float } => {
                &&& integer matches Some(i) ==> doc_value(d) == NewTree::Int(i as int)
                &&& integer is None && float is Some ==> doc_value(d) == NewTree::Float(float->0)
                &&& integer is None && float is None ==> doc_value(d) == NewTree::Int(0)
            },
            JsonDoc::Str(s) => doc_value(d) == NewTree::Text(s),
            JsonDoc::Array(items) => doc_value(d) == NewTree::List(
                items.map_values(|x: JsonDoc| doc_value(x)),
            ),
            JsonDoc::Object(members) => doc_value(d) == NewTree::Mapping(
                members.map_values(|m: (Seq<char>, JsonDoc)| (m.0, doc_value(m.1))),
            ),
        },
{
    match d {
        JsonDoc::Array(items) => {
            lemma_doc_values(items, items.len());
            assert(doc_values(items, items.len()) =~= items.map_values(|x: JsonDoc| doc_value(x)));
        },
        JsonDoc::Object(members) => {
            lemma_doc_entries(members, members.len());
            assert(doc_entries(members, members.len()) =~= members.map_values(
                |m: (Seq<char>, JsonDoc)| (m.0, doc_value(m.1)),
            ));
        },
        _ => {},
    }
}

/// The size of a page is the one that the query asks for, up to a thousand, and a hundred
/// where it asks for none that is a positive integer.
pub proof fn law_page_size(e: Seq<(Seq<char>, Seq<char>)>, n: i64)
    ensures
        outside::lookup(e, "limit"@) is None ==> page_limit(e) == 100,
        outside::lookup(e, "limit"@) == Some(numeral::signed_decimal(n as int)) ==> page_limit(e)
            == if n <= 0 {
            100
        } else if n > 1000 {
            1000
        } else {
            n as int
        },
        outside::lookup(e, "limit"@) matches Some(s) && numeral::read_signed(s) is None
            ==> page_limit(e) == 100,
{
    numeral::law_integers_read_back(n);
}

/// A page starts at the cursor, and at the offset where there is no cursor; at the start where
/// there is neither, or where it is negative or no integer. A cursor goes before an offset.
pub proof fn law_page_start(e: Seq<(Seq<char>, Seq<char>)>, n: i64)
    ensures
        outside::lookup(e, "cursor"@) is None && outside::lookup(e, "offset"@) is None
            ==> page_offset(e) == 0,
        outside::lookup(e, "cursor"@) == Some(numeral::signed_decimal(n as int)) ==> page_offset(e)
            == if n < 0 {
            0
        } else {
            n as int
        },
        outside::lookup(e, "cursor"@) is None && outside::lookup(e, "offset"@) == Some(
            numeral::signed_decimal(n as int),
        ) ==> page_offset(e) == if n < 0 {
            0
        } else {
            n as int
        },
        outside::lookup(e, "cursor"@) matches Some(s) && numeral::read_signed(s) is None
            ==> page_offset(e) == 0,
{
    numeral::law_integers_read_back(n);
}

/// A page of a collection in memory: the items from its start, as many as its size and the
/// collection have, their number, that of the collection, and where the next page starts, or
/// null on the last one.
pub proof fn law_page_in_its_envelope(items: Seq<SynValue>, e: Seq<(Seq<char>, Seq<char>)>)
    requires
        items.len() <= i64::MAX,
        items.len() <= usize::MAX,
    ensures
        ({
            let total = items.len() as int;
            let start = if page_offset(e) <= total {
                page_offset(e) as int
            } else {
                total
            };
            let end = if page_offset(e) + page_limit(e) <= total {
                page_offset(e) + page_limit(e)
            } else {
                total
            };
            paged_json(items, e) == JsonTree::Object(
                seq![
                    (
                        "items"@,
                        JsonTree::Array(
                            items.subrange(start, end).map_values(
                                |x: SynValue| content::syn_json(x),
                            ),
                        ),
                    ),
                    ("count"@, JsonTree::Int(end - start)),
                    ("total"@, JsonTree::Int(total)),
                    (
                        "cursor"@,
                        if page_offset(e) + page_limit(e) < total {
                            JsonTree::Int(page_offset(e) + page_limit(e))
                        } else {
                            JsonTree::Null
                        },
                    ),
                ],
            )
        }),
{
    law_page_counts(items, e);
    let total = items.len() as int;
    let (start, end) = page_positions(total, page_limit(e) as int, page_offset(e) as int);
    content::law_elements_keep_their_order(items.subrange(start, end), seq![]);
    let page = paged_json(items, e)->Object_0;
    assert(page =~= seq![
        (
            "items"@,
            JsonTree::Array(
                items.subrange(start, end).map_values(|x: SynValue| content::syn_json(x)),
            ),
        ),
        ("count"@, JsonTree::Int(end - start)),
        ("total"@, JsonTree::Int(total)),
        (
            "cursor"@,
            if page_offset(e) + page_limit(e) < total {
                JsonTree::Int(page_offset(e) + page_limit(e))
            } else {
                JsonTree::Null
            },
        ),
    ]);
}

/// A page that was fetched: all its rows, in order, their number, the number that the fetching
/// function counted, and where the next page starts, or null on the last one.
pub proof fn law_fetched_page_in_its_envelope(
    rows: Seq<SynValue>,
    total: int,
    e: Seq<(Seq<char>, Seq<char>)>,
)
    requires
        rows.len() <= i64::MAX,
        rows.len() <= usize::MAX,
    ensures
        fetched_json(rows, total, e) == JsonTree::Object(
            seq![
                (
                    "items"@,
                    JsonTree::Array(rows.map_values(|x: SynValue| content::syn_json(x))),
                ),
                ("count"@, JsonTree::Int(rows.len() as int)),
                ("total"@, JsonTree::Int(total)),
                (
                    "cursor"@,
                    if page_offset(e) + page_limit(e) < total {
                        JsonTree::Int(page_offset(e) + page_limit(e))
                    } else {
                        JsonTree::Null
                    },
                ),
            ],
        ),
{
    content::law_elements_keep_their_order(rows, seq![]);
    let page = fetched_json(rows, total, e)->Object_0;
    assert(page =~= seq![
        ("items"@, JsonTree::Array(rows.map_values(|x: SynValue| content::syn_json(x)))),
        ("count"@, JsonTree::Int(rows.len() as int)),
        ("total"@, JsonTree::Int(total)),
        (
            "cursor"@,
            if page_offset(e) + page_limit(e) < total {
                JsonTree::Int(page_offset(e) + page_limit(e))
            } else {
                JsonTree::Null
            },
        ),
    ]);
}

/// How a value is answered: nothing as null, a list as a page, a collection that is fetched by
/// asking for the page of the query, any other value as its JSON form, all with 200; a value
/// in an envelope the same way, with the envelope's status; a raw response with its own bytes,
/// type and status.
pub proof fn law_values_are_answered(
    v: Option<SynValue>,
    e: Seq<(Seq<char>, Seq<char>)>,
)
    ensures
        v is None || v->0.data is Nothing ==> built(v, e) == (BuiltView::Ready {
            status: 200,
            body: BodyView::Json(JsonTree::Null),
        }),
        v matches Some(x) ==> match x.data {
            SynData::Nothing => true,
            SynData::List(items) => built(v, e) == (BuiltView::Ready {
                status: 200,
                body: BodyView::Json(paged_json(items@, e)),
            }),
            SynData::Server(s) => match *s {
                ServerValue::Raw { body, content_type, status } => built(v, e)
                    == (BuiltView::Ready {
                    status: status as u16,
                    body: BodyView::Raw(
                        media::RawView {
                            body: vstd::utf8::encode_utf8(body@),
                            content_type: content_type@,
                            status: status as u16,
                        },
                    ),
                }),
                ServerValue::Envelope { status, value } => match value.data {
                    SynData::Nothing => built(v, e) == (BuiltView::Ready {
                        status: status as u16,
                        body: BodyView::Json(JsonTree::Null),
                    }),
                    SynData::List(items) => built(v, e) == (BuiltView::Ready {
                        status: status as u16,
                        body: BodyView::Json(paged_json(items@, e)),
                    }),
                    SynData::Server(inner) => match *inner {
                        ServerValue::Paged(p) => built(v, e) == (BuiltView::Fetch {
                            status: status as u16,
                            fetch: p.fetch,
                            limit: page_limit(e) as int,
                            offset: page_offset(e) as int,
                        }),
                        _ => built(v, e) == (BuiltView::Ready {
                            status: status as u16,
                            body: BodyView::Json(content::syn_json(value)),
                        }),
                    },
                    _ => built(v, e) == (BuiltView::Ready {
                        status: status as u16,
                        body: BodyView::Json(content::syn_json(value)),
                    }),
                },
                ServerValue::Paged(p) => built(v, e) == (BuiltView::Fetch {
                    status: 200,
                    fetch: p.fetch,
                    limit: page_limit(e) as int,
                    offset: page_offset(e) as int,
                }),
                _ => built(v, e) == (BuiltView::Ready {
                    status: 200,
                    body: BodyView::Json(content::syn_json(x)),
                }),
            },
            _ => built(v, e) == (BuiltView::Ready {
                status: 200,
                body: BodyView::Json(content::syn_json(x)),
            }),
        },
{
}

/// What is viewed of a body, of a form and of a response that was built is what they hold.
pub proof fn law_built_responses_are_viewed(b: ResponseBody, s: Shaped, r: Built)
    ensures
        match b {
            ResponseBody::Json(j) => b@ == BodyView::Json(j.tree()),
            ResponseBody::Raw(x) => b@ matches BodyView::Raw(y) && y.body == x.body@
                && y.content_type == x.content_type@ && y.status == x.status,
        },
        match s {
            Shaped::Ready(j) => s@ == ShapedView::Ready(j.tree()),
            Shaped::Fetch { fetch, limit, offset } => s@ == (ShapedView::Fetch {
                fetch,
                limit: limit as int,
                offset: offset as int,
            }),
        },
        match r {
            Built::Ready { status, body } => r@ == (BuiltView::Ready { status, body: body@ }),
            Built::Fetch { status, fetch, limit, offset } => r@ == (BuiltView::Fetch {
                status,
                fetch,
                limit: limit as int,
                offset: offset as int,
            }),
        },
{
}

/// The content of a document that was read is that of its parts, one for one.
pub proof fn law_read_content_is_that_of_its_parts(j: JsonBody)
    ensures
        match j {
            JsonBody::Null => j.doc() is Null,
            JsonBody::Bool(b) => j.doc() == JsonDoc::Bool(b),
            JsonBody::Number { integer, float } => j.doc() matches JsonDoc::Number {
                integer: i,
                float: f,
            } && i == integer && (float is Some == f is Some) && (float matches Some(x) ==> f
                == Some(x@)),
            JsonBody::Str(s) => j.doc() == JsonDoc::Str(s@),
            JsonBody::Array(v) => j.doc() matches JsonDoc::Array(ds) && ds.len() == v@.len() && (
            forall|i: int| 0 <= i < ds.len() ==> #[trigger] ds[i] == v@[i].doc()),
            JsonBody::Object(v) => j.doc() matches JsonDoc::Object(ds) && ds.len() == v@.len() && (
            forall|i: int| 0 <= i < ds.len() ==> #[trigger] ds[i] == (v@[i].0@, v@[i].1.doc())),
        },
{
    match j {
        JsonBody::Array(v) => {
            lemma_docs_of_array(v@, v@.len());
        },
        JsonBody::Object(v) => {
            lemma_docs_of_object(v@, v@.len());
        },
        _ => {},
    }
}

proof fn lemma_docs_of_array(v: Seq<JsonBody>, n: nat)
    requires
        n <= v.len(),
    ensures
        array_docs(v, n).len() == n,
        forall|i: int| 0 <= i < n ==> #[trigger] array_docs(v, n)[i] == v[i].doc(),
    decreases n,
{
    if n > 0 {
        lemma_docs_of_array(v, (n - 1) as nat);
    }
}

proof fn lemma_docs_of_object(v: Seq<(String, JsonBody)>, n: nat)
    requires
        n <= v.len(),
    ensures
        object_docs(v, n).len() == n,
        forall|i: int| 0 <= i < n ==> #[trigger] object_docs(v, n)[i] == (v[i].0@, v[i].1.doc()),
    decreases n,
{
    if n > 0 {
        lemma_docs_of_object(v, (n - 1) as nat);
    }
}

/// A list, and a collection that is fetched, are answered page by page, and nothing else is; a
/// value in an envelope is answered as the value alone would be.
pub proof fn law_what_is_answered_in_pages(v: SynValue, w: SynValue, status: i64)
    ensures
        is_collection(v) <==> v.data is List || (v.data is Server && *(v.data->Server_0) is Paged),
        v.data is Server && *(v.data->Server_0) == (ServerValue::Envelope { status, value: w })
            ==> payload_of(v) == w,
        !(v.data is Server) ==> payload_of(v) == v,
{
}

} // verus!
