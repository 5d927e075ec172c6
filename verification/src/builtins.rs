//! The builtins with which a handler answers: the helpers that set a status, raw
//! responses, and the vocabulary of content trees.

use vstd::prelude::*;

use crate::content;
use crate::json::JsonTree;
use crate::media;
use crate::numeral;
use crate::render;
use crate::respond;
use crate::text;
use crate::value;
use crate::value::NewTree;
use crate::value::NewValue;
use crate::value::Number;
use crate::value::ServerValue;
use crate::value::SynData;
use crate::value::SynValue;

verus! {

/// The builtins of the server.
#[derive(Clone, Copy)]
pub enum ServeBuiltin {
    Okay,
    Created,
    NotFound,
    Fail,
    Html,
    Respond,
    Page,
    Heading,
    Prose,
    List,
    OrderedList,
    Link,
    Image,
    Section,
    Code,
    Raw,
    Content,
}

/// A builtin with its name and the number of arguments that it takes, or -1 where that is
/// open.
pub struct Registration {
    pub name: &'static str,
    pub arity: i32,
    pub op: ServeBuiltin,
}

/// The name, the arity and the operation of each builtin, in the order of registration.
pub open spec fn serve_table() -> Seq<(Seq<char>, int, ServeBuiltin)> {
    seq![
        ("ok"@, 1, ServeBuiltin::Okay),
        ("created"@, 1, ServeBuiltin::Created),
        ("not_found"@, 1, ServeBuiltin::NotFound),
        ("fail"@, -1, ServeBuiltin::Fail),
        ("html"@, 1, ServeBuiltin::Html),
        ("respond"@, -1, ServeBuiltin::Respond),
        ("page"@, -1, ServeBuiltin::Page),
        ("heading"@, 2, ServeBuiltin::Heading),
        ("prose"@, 1, ServeBuiltin::Prose),
        ("list"@, 1, ServeBuiltin::List),
        ("ordered_list"@, 1, ServeBuiltin::OrderedList),
        ("link"@, 2, ServeBuiltin::Link),
        ("image"@, 2, ServeBuiltin::Image),
        ("section"@, 1, ServeBuiltin::Section),
        ("code"@, -1, ServeBuiltin::Code),
        ("raw"@, 1, ServeBuiltin::Raw),
        ("content"@, 1, ServeBuiltin::Content),
    ]
}

/// The views of registrations.
pub open spec fn listed(v: Seq<Registration>) -> Seq<(Seq<char>, int, ServeBuiltin)> {
    v.map_values(|r: Registration| (r.name@, r.arity as int, r.op))
}

fn entry(name: &'static str, arity: i32, op: ServeBuiltin) -> (r: Registration)
    ensures
        r.name@ == name@ && r.arity == arity && r.op == op,
{
    Registration { name, arity, op }
}

/// The builtins to be registered in every interpreter.
pub fn register_serve_builtins() -> (v: Vec<Registration>)
    ensures
        listed(v@) == serve_table(),
{
    let mut v: Vec<Registration> = Vec::new();
    v.push(entry("ok", 1, ServeBuiltin::Okay));
    v.push(entry("created", 1, ServeBuiltin::Created));
    v.push(entry("not_found", 1, ServeBuiltin::NotFound));
    v.push(entry("fail", -1, ServeBuiltin::Fail));
    v.push(entry("html", 1, ServeBuiltin::Html));
    v.push(entry("respond", -1, ServeBuiltin::Respond));
    v.push(entry("page", -1, ServeBuiltin::Page));
    v.push(entry("heading", 2, ServeBuiltin::Heading));
    v.push(entry("prose", 1, ServeBuiltin::Prose));
    v.push(entry("list", 1, ServeBuiltin::List));
    v.push(entry("ordered_list", 1, ServeBuiltin::OrderedList));
    v.push(entry("link", 2, ServeBuiltin::Link));
    v.push(entry("image", 2, ServeBuiltin::Image));
    v.push(entry("section", 1, ServeBuiltin::Section));
    v.push(entry("code", -1, ServeBuiltin::Code));
    v.push(entry("raw", 1, ServeBuiltin::Raw));
    v.push(entry("content", 1, ServeBuiltin::Content));
    assert(listed(v@) =~= serve_table());
    v
}

// ---------------------------------------------------------------------------
// Arguments
// ---------------------------------------------------------------------------

/// The argument at position `i`, where it was given.
pub open spec fn argument(args: Seq<SynValue>, i: int) -> Option<SynValue> {
    if 0 <= i < args.len() {
        Some(args[i])
    } else {
        None
    }
}

/// An argument as text: empty where it was not given.
pub open spec fn arg_text(v: Option<SynValue>) -> Seq<char> {
    match v {
        None => seq![],
        Some(x) => match x.data {
            SynData::Text(s) => s@,
            _ => x.shown@,
        },
    }
}

/// An argument as an integer, or a default where it is no number.
pub open spec fn arg_int(v: Option<SynValue>, default: i64) -> i64 {
    match v {
        Some(x) => if x.data is Number {
            value::value_i64(x)
        } else {
            default
        },
        None => default,
    }
}

/// The elements of a list argument: none where it is no list.
pub open spec fn arg_nodes(v: Option<SynValue>) -> Seq<NewTree> {
    match v {
        Some(x) => match x.data {
            SynData::List(items) => items@.map_values(|i: SynValue| NewTree::Given(i)),
            _ => seq![],
        },
        None => seq![],
    }
}

/// The entries of a map argument as texts: none where it is no map.
pub open spec fn arg_meta(v: Option<SynValue>) -> Seq<(Seq<char>, NewTree)> {
    match v {
        Some(x) => match x.data {
            SynData::Mapping(entries) => entries@.map_values(
                |e: (String, SynValue)| (e.0@, NewTree::Text(arg_text(Some(e.1)))),
            ),
            _ => seq![],
        },
        None => seq![],
    }
}

/// An argument as text.
pub fn text_arg(v: Option<&SynValue>) -> (r: String)
    ensures
        r@ == arg_text(
            match v {
                Some(x) => Some(*x),
                None => None,
            },
        ),
{
    match v {
        None => String::new(),
        Some(x) => match &x.data {
            SynData::Text(s) => s.as_str().to_owned(),
            _ => x.shown.as_str().to_owned(),
        },
    }
}

fn int_arg(v: Option<&SynValue>, default: i64) -> (r: i64)
    ensures
        r == arg_int(
            match v {
                Some(x) => Some(*x),
                None => None,
            },
            default,
        ),
{
    match v {
        Some(x) => match &x.data {
            SynData::Number(n) => value::number_to_i64(n),
            _ => default,
        },
        None => default,
    }
}

fn arg_at<'a>(args: &'a Vec<SynValue>, i: usize) -> (r: Option<&'a SynValue>)
    ensures
        r is Some == argument(args@, i as int) is Some,
        r matches Some(x) ==> argument(args@, i as int) == Some(*x),
{
    if i < args.len() {
        Some(&args[i])
    } else {
        None
    }
}

fn take_first(args: Vec<SynValue>) -> (r: Option<SynValue>)
    ensures
        r == argument(args@, 0),
{
    let mut args = args;
    if args.len() == 0 {
        None
    } else {
        Some(args.remove(0))
    }
}

/// A new list with the elements of a list argument.
pub fn n_nodes(v: Option<SynValue>) -> (r: NewValue)
    ensures
        r.tree() == NewTree::List(arg_nodes(v)),
{
    let mut out: Vec<NewValue> = Vec::new();
    if let Some(x) = v {
        if let SynData::List(items) = x.data {
            let mut rest = value::reversed(items);
            while rest.len() > 0
                invariant
                    rest@ == items@.skip(out@.len() as int).reverse(),
                    rest@.len() + out@.len() == items@.len(),
                    forall|i: int|
                        0 <= i < out@.len() ==> #[trigger] out@[i] == NewValue::Given(items@[i]),
                decreases rest.len(),
            {
                if let Some(item) = rest.pop() {
                    out.push(NewValue::Given(item));
                    assert(rest@ =~= items@.skip(out@.len() as int).reverse());
                }
            }
        }
    }
    proof {
        value::lemma_list_trees(out@, out@.len());
        assert(value::list_trees(out@, out@.len()) =~= arg_nodes(v));
    }
    NewValue::List(out)
}

/// A new map with the entries of a map argument as texts.
pub fn n_meta(v: Option<&SynValue>) -> (r: NewValue)
    ensures
        r.tree() == NewTree::Mapping(
            arg_meta(
                match v {
                    Some(x) => Some(*x),
                    None => None,
                },
            ),
        ),
{
    let mut out: Vec<(String, NewValue)> = Vec::new();
    if let Some(x) = v {
        if let SynData::Mapping(entries) = &x.data {
            for i in 0..entries.len()
                invariant
                    out@.len() == i,
                    forall|j: int|
                        0 <= j < i ==> (#[trigger] out@[j]).0@ == entries@[j].0@ && out@[j].1.tree()
                            == NewTree::Text(arg_text(Some(entries@[j].1))),
            {
                let s = text_arg(Some(&entries[i].1));
                out.push((entries[i].0.as_str().to_owned(), NewValue::Text(s)));
            }
        }
    }
    proof {
        value::lemma_map_trees(out@, out@.len());
        assert(value::map_trees(out@, out@.len()) =~= arg_meta(
            match v {
                Some(x) => Some(*x),
                None => None,
            },
        ));
    }
    NewValue::Mapping(out)
}

// ---------------------------------------------------------------------------
// Results
// ---------------------------------------------------------------------------

/// A value under an explicit status.
pub open spec fn envelope_tree(status: int, value: NewTree) -> NewTree {
    NewTree::Envelope { status, value: Box::new(value) }
}

/// A node of that kind with those fields.
pub open spec fn node_tree(kind: Seq<char>, fields: Seq<(Seq<char>, NewTree)>) -> NewTree {
    NewTree::Node(seq![("kind"@, NewTree::Text(kind))] + fields)
}

/// The body of an error: its message and its status.
pub open spec fn error_tree(message: Seq<char>, status: int) -> NewTree {
    NewTree::Mapping(seq![("error"@, NewTree::Text(message)), ("status"@, NewTree::Int(status))])
}

/// The status and the message of a failure: a number among the first two arguments is the
/// status, the other one the message; they are 400 and "error" where they are not given.
pub open spec fn failure(args: Seq<SynValue>) -> (int, Seq<char>) {
    if args.len() >= 2 {
        if args[0].data is Number {
            (value::value_i64(args[0]) as int, args[1].shown@)
        } else {
            (arg_int(Some(args[1]), 400) as int, args[0].shown@)
        }
    } else if args.len() == 1 {
        if args[0].data is Number {
            (value::value_i64(args[0]) as int, "error"@)
        } else {
            (400, args[0].shown@)
        }
    } else {
        (400, "error"@)
    }
}

/// What is not found: a map as it is, or an error with the argument's text.
pub open spec fn missing(arg: Option<SynValue>) -> NewTree {
    match arg {
        Some(v) => if v.data is Mapping {
            NewTree::Given(v)
        } else {
            error_tree(v.shown@, 404)
        },
        None => error_tree("not found"@, 404),
    }
}

/// The first argument, or nothing.
pub open spec fn given(arg: Option<SynValue>) -> NewTree {
    match arg {
        Some(v) => NewTree::Given(v),
        None => NewTree::Nothing,
    }
}

impl ServeBuiltin {
    /// What the builtin gives for its arguments.
    pub open spec fn result(self, args: Seq<SynValue>) -> NewTree {
        let first = argument(args, 0);
        let second = argument(args, 1);
        match self {
            ServeBuiltin::Okay => envelope_tree(200, given(first)),
            ServeBuiltin::Created => envelope_tree(201, given(first)),
            ServeBuiltin::NotFound => envelope_tree(404, missing(first)),
            ServeBuiltin::Fail => envelope_tree(
                failure(args).0,
                error_tree(failure(args).1, failure(args).0),
            ),
            ServeBuiltin::Html => NewTree::Raw {
                body: arg_text(first),
                content_type: "text/html; charset=utf-8"@,
                status: 200,
            },
            ServeBuiltin::Respond => NewTree::Raw {
                body: arg_text(first),
                content_type: if args.len() > 1 {
                    arg_text(second)
                } else {
                    "text/plain; charset=utf-8"@
                },
                status: arg_int(argument(args, 2), 200) as int,
            },
            ServeBuiltin::Page => node_tree(
                "page"@,
                seq![
                    ("nodes"@, NewTree::List(arg_nodes(first))),
                    ("meta"@, NewTree::Mapping(arg_meta(second))),
                ],
            ),
            ServeBuiltin::Heading => node_tree(
                "heading"@,
                seq![
                    ("level"@, NewTree::Int(arg_int(first, 1) as int)),
                    ("text"@, NewTree::Text(arg_text(second))),
                ],
            ),
            ServeBuiltin::Prose => node_tree(
                "prose"@,
                seq![("text"@, NewTree::Text(arg_text(first)))],
            ),
            ServeBuiltin::List => node_tree(
                "list"@,
                seq![("items"@, NewTree::List(arg_nodes(first)))],
            ),
            ServeBuiltin::OrderedList => node_tree(
                "ordered_list"@,
                seq![("items"@, NewTree::List(arg_nodes(first)))],
            ),
            ServeBuiltin::Link => node_tree(
                "link"@,
                seq![
                    ("text"@, NewTree::Text(arg_text(first))),
                    ("href"@, NewTree::Text(arg_text(second))),
                ],
            ),
            ServeBuiltin::Image => node_tree(
                "image"@,
                seq![
                    ("src"@, NewTree::Text(arg_text(first))),
                    ("alt"@, NewTree::Text(arg_text(second))),
                ],
            ),
            ServeBuiltin::Section => node_tree(
                "section"@,
                seq![("nodes"@, NewTree::List(arg_nodes(first)))],
            ),
            ServeBuiltin::Code => node_tree(
                "code"@,
                seq![
                    ("text"@, NewTree::Text(arg_text(first))),
                    (
                        "lang"@,
                        if args.len() > 1 {
                            NewTree::Text(arg_text(second))
                        } else {
                            NewTree::Nothing
                        },
                    ),
                ],
            ),
            ServeBuiltin::Raw => node_tree(
                "raw"@,
                seq![("html"@, NewTree::Text(arg_text(first)))],
            ),
            ServeBuiltin::Content => NewTree::Content(
                Box::new(
                    match first {
                        Some(v) => NewTree::Given(v),
                        None => node_tree(
                            "page"@,
                            seq![
                                ("nodes"@, NewTree::List(seq![])),
                                ("meta"@, NewTree::Mapping(seq![])),
                            ],
                        ),
                    },
                ),
            ),
        }
    }
}

fn make_envelope(status: i64, value: NewValue) -> (r: NewValue)
    ensures
        r.tree() == envelope_tree(status as int, value.tree()),
{
    NewValue::Envelope { status, value: Box::new(value) }
}

fn make_raw_val(body: String, content_type: String, status: i64) -> (r: NewValue)
    ensures
        r.tree() == (NewTree::Raw {
            body: body@,
            content_type: content_type@,
            status: status as int,
        }),
{
    NewValue::Raw { body, content_type, status }
}

fn make_node1(kind: &str, key: &str, val: NewValue) -> (r: NewValue)
    ensures
        r.tree() == node_tree(kind@, seq![(key@, val.tree())]),
{
    let mut v: Vec<(String, NewValue)> = Vec::new();
    let name = NewValue::Text(kind.to_owned());
    assert(name.tree() == NewTree::Text(kind@));
    v.push(("kind".to_owned(), name));
    v.push((key.to_owned(), val));
    proof {
        value::lemma_map_trees(v@, v@.len());
        assert(value::map_trees(v@, v@.len()) =~= node_tree(
            kind@,
            seq![(key@, val.tree())],
        )->Node_0);
    }
    NewValue::Node(v)
}

fn make_node2(kind: &str, key1: &str, val1: NewValue, key2: &str, val2: NewValue) -> (r: NewValue)
    ensures
        r.tree() == node_tree(kind@, seq![(key1@, val1.tree()), (key2@, val2.tree())]),
{
    let mut v: Vec<(String, NewValue)> = Vec::new();
    let name = NewValue::Text(kind.to_owned());
    assert(name.tree() == NewTree::Text(kind@));
    v.push(("kind".to_owned(), name));
    v.push((key1.to_owned(), val1));
    v.push((key2.to_owned(), val2));
    proof {
        value::lemma_map_trees(v@, v@.len());
        assert(value::map_trees(v@, v@.len()) =~= node_tree(
            kind@,
            seq![(key1@, val1.tree()), (key2@, val2.tree())],
        )->Node_0);
    }
    NewValue::Node(v)
}

fn error_value(message: String, status: i64) -> (r: NewValue)
    ensures
        r.tree() == error_tree(message@, status as int),
{
    let mut v: Vec<(String, NewValue)> = Vec::new();
    let words = NewValue::Text(message);
    let code = NewValue::Int(status);
    assert(words.tree() == NewTree::Text(message@));
    assert(code.tree() == NewTree::Int(status as int));
    v.push(("error".to_owned(), words));
    v.push(("status".to_owned(), code));
    proof {
        value::lemma_map_trees(v@, v@.len());
        assert(value::map_trees(v@, v@.len()) =~= error_tree(
            message@,
            status as int,
        )->Mapping_0);
    }
    NewValue::Mapping(v)
}

fn text_value(s: String) -> (r: NewValue)
    ensures
        r.tree() == NewTree::Text(s@),
{
    NewValue::Text(s)
}

fn given_or_nothing(arg: Option<SynValue>) -> (r: NewValue)
    ensures
        r.tree() == given(arg),
{
    match arg {
        Some(v) => NewValue::Given(v),
        None => NewValue::Nothing,
    }
}

fn missing_value(arg: Option<SynValue>) -> (r: NewValue)
    ensures
        r.tree() == missing(arg),
{
    match arg {
        Some(v) => match &v.data {
            SynData::Mapping(_) => NewValue::Given(v),
            _ => error_value(v.shown, 404),
        },
        None => error_value("not found".to_owned(), 404),
    }
}

fn failure_of(args: &Vec<SynValue>) -> (r: (i64, String))
    ensures
        (r.0 as int, r.1@) == failure(args@),
{
    if args.len() >= 2 {
        if matches!(args[0].data, SynData::Number(_)) {
            (value::num_i64(&args[0]), args[1].shown.as_str().to_owned())
        } else {
            (int_arg(Some(&args[1]), 400), args[0].shown.as_str().to_owned())
        }
    } else if args.len() == 1 {
        if matches!(args[0].data, SynData::Number(_)) {
            (value::num_i64(&args[0]), "error".to_owned())
        } else {
            (400, args[0].shown.as_str().to_owned())
        }
    } else {
        (400, "error".to_owned())
    }
}

impl ServeBuiltin {
    /// Calls the builtin.
    pub fn call(self, args: Vec<SynValue>) -> (r: NewValue)
        ensures
            r.tree() == self.result(args@),
    {
        match self {
            ServeBuiltin::Okay => make_envelope(200, given_or_nothing(take_first(args))),
            ServeBuiltin::Created => make_envelope(201, given_or_nothing(take_first(args))),
            ServeBuiltin::NotFound => make_envelope(404, missing_value(take_first(args))),
            ServeBuiltin::Fail => {
                let (code, message) = failure_of(&args);
                make_envelope(code, error_value(message, code))
            },
            ServeBuiltin::Html => make_raw_val(
                text_arg(arg_at(&args, 0)),
                "text/html; charset=utf-8".to_owned(),
                200,
            ),
            ServeBuiltin::Respond => {
                let content_type = if args.len() > 1 {
                    text_arg(arg_at(&args, 1))
                } else {
                    "text/plain; charset=utf-8".to_owned()
                };
                let status = int_arg(arg_at(&args, 2), 200);
                make_raw_val(text_arg(arg_at(&args, 0)), content_type, status)
            },
            ServeBuiltin::Page => {
                let meta = n_meta(arg_at(&args, 1));
                let nodes = n_nodes(take_first(args));
                make_node2("page", "nodes", nodes, "meta", meta)
            },
            ServeBuiltin::Heading => {
                let level = NewValue::Int(int_arg(arg_at(&args, 0), 1));
                assert(level.tree() == NewTree::Int(arg_int(argument(args@, 0), 1) as int));
                let words = text_value(text_arg(arg_at(&args, 1)));
                make_node2("heading", "level", level, "text", words)
            },
            ServeBuiltin::Prose => make_node1(
                "prose",
                "text",
                text_value(text_arg(arg_at(&args, 0))),
            ),
            ServeBuiltin::List => make_node1("list", "items", n_nodes(take_first(args))),
            ServeBuiltin::OrderedList => make_node1(
                "ordered_list",
                "items",
                n_nodes(take_first(args)),
            ),
            ServeBuiltin::Link => make_node2(
                "link",
                "text",
                text_value(text_arg(arg_at(&args, 0))),
                "href",
                text_value(text_arg(arg_at(&args, 1))),
            ),
            ServeBuiltin::Image => make_node2(
                "image",
                "src",
                text_value(text_arg(arg_at(&args, 0))),
                "alt",
                text_value(text_arg(arg_at(&args, 1))),
            ),
            ServeBuiltin::Section => make_node1("section", "nodes", n_nodes(take_first(args))),
            ServeBuiltin::Code => {
                let lang = if args.len() > 1 {
                    text_value(text_arg(arg_at(&args, 1)))
                } else {
                    NewValue::Nothing
                };
                assert(args.len() <= 1 ==> lang.tree() == NewTree::Nothing);
                make_node2("code", "text", text_value(text_arg(arg_at(&args, 0))), "lang", lang)
            },
            ServeBuiltin::Raw => make_node1("raw", "html", text_value(text_arg(arg_at(&args, 0)))),
            ServeBuiltin::Content => {
                let tree = match take_first(args) {
                    Some(v) => NewValue::Given(v),
                    None => make_node2("page", "nodes", n_nodes(None), "meta", n_meta(None)),
                };
                assert(argument(args@, 0) matches Some(v) ==> tree.tree() == NewTree::Given(v));
                NewValue::Content(Box::new(tree))
            },
        }
    }
}

// ---------------------------------------------------------------------------
// Laws
// ---------------------------------------------------------------------------

/// `v` is a value that the runtime may make of `t`: the same content, and texts and integers
/// print as themselves.
pub open spec fn realises(t: NewTree, v: SynValue) -> bool
    decreases t,
{
    match t {
        NewTree::Nothing => v.data is Nothing,
        NewTree::Bool(b) => v.data == SynData::Bool(b),
        NewTree::Int(i) => {
            &&& v.data matches SynData::Number(n)
            &&& n matches Number::Int(k)
            &&& k == i
            &&& v.shown@ == numeral::signed_decimal(i)
        },
        NewTree::Float(_) => v.data is Number,
        NewTree::Text(s) => {
            &&& v.data matches SynData::Text(x)
            &&& x@ == s
            &&& v.shown@ == s
        },
        NewTree::Given(w) => v == w,
        NewTree::List(ts) => {
            &&& v.data matches SynData::List(items)
            &&& items@.len() == ts.len()
            &&& forall|i: int| 0 <= i < ts.len() ==> realises(ts[i], #[trigger] items@[i])
        },
        NewTree::Mapping(ts) => {
            &&& v.data matches SynData::Mapping(entries)
            &&& entries@.len() == ts.len()
            &&& forall|i: int|
                0 <= i < ts.len() ==> (#[trigger] entries@[i]).0@ == ts[i].0 && realises(
                    ts[i].1,
                    entries@[i].1,
                )
        },
        NewTree::Raw { body, content_type, status } => {
            &&& v.data matches SynData::Server(s)
            &&& *s matches ServerValue::Raw { body: b, content_type: c, status: n }
            &&& b@ == body
            &&& c@ == content_type
            &&& n == status
        },
        NewTree::Envelope { status, value } => {
            &&& v.data matches SynData::Server(s)
            &&& *s matches ServerValue::Envelope { status: n, value: w }
            &&& n == status
            &&& realises(*value, w)
        },
        NewTree::Node(ts) => {
            &&& v.data matches SynData::Server(s)
            &&& *s matches ServerValue::Node(fields)
            &&& fields@.len() == ts.len()
            &&& forall|i: int|
                0 <= i < ts.len() ==> (#[trigger] fields@[i]).0@ == ts[i].0 && realises(
                    ts[i].1,
                    fields@[i].1,
                )
        },
        NewTree::Content(inner) => {
            &&& v.data matches SynData::Server(s)
            &&& *s matches ServerValue::Content(w)
            &&& realises(*inner, w)
        },
    }
}

/// `ok(x)` is answered 200 and `created(x)` 201, each with the form of `x`.
pub proof fn law_success_helpers(
    args: Seq<SynValue>,
    v: SynValue,
    e: Seq<(Seq<char>, Seq<char>)>,
)
    ensures
        realises(ServeBuiltin::Okay.result(args), v) ==> respond::built(Some(v), e)
            == respond::with_status(200, respond::shaped(argument(args, 0), e)),
        realises(ServeBuiltin::Created.result(args), v) ==> respond::built(Some(v), e)
            == respond::with_status(201, respond::shaped(argument(args, 0), e)),
{
    reveal_with_fuel(realises, 2);
}

/// The body of an error answer.
pub open spec fn error_body(message: Seq<char>, status: int) -> respond::BodyView {
    respond::BodyView::Json(
        JsonTree::Object(seq![("error"@, JsonTree::Str(message)), ("status"@, JsonTree::Int(status))]),
    )
}

proof fn lemma_error_json(message: Seq<char>, status: int, w: SynValue)
    requires
        realises(error_tree(message, status), w),
    ensures
        w.data is Mapping,
        respond::BodyView::Json(content::syn_json(w)) == error_body(message, status),
{
    reveal_with_fuel(realises, 3);
    let t = error_tree(message, status)->Mapping_0;
    let entries = w.data->Mapping_0;
    assert(entries@[0].0@ == t[0].0 && realises(t[0].1, entries@[0].1));
    assert(entries@[1].0@ == t[1].0 && realises(t[1].1, entries@[1].1));
    reveal_with_fuel(content::entry_jsons, 3);
    reveal_with_fuel(content::syn_json, 3);
    assert(content::entry_jsons(entries@, 2) =~= seq![
        ("error"@, JsonTree::Str(message)),
        ("status"@, JsonTree::Int(status)),
    ]);
}

/// `fail` answers with its status, and its body repeats the status beside the message;
/// `not_found` does so with 404, unless it is given a map, which is answered as it is.
pub proof fn law_failure_helpers(
    args: Seq<SynValue>,
    v: SynValue,
    e: Seq<(Seq<char>, Seq<char>)>,
)
    ensures
        realises(ServeBuiltin::Fail.result(args), v) ==> respond::built(Some(v), e) == (
        respond::BuiltView::Ready {
            status: failure(args).0 as u16,
            body: error_body(failure(args).1, failure(args).0),
        }),
        realises(ServeBuiltin::NotFound.result(args), v) ==> respond::built(Some(v), e) == (
        respond::BuiltView::Ready {
            status: 404,
            body: match argument(args, 0) {
                Some(x) => if x.data is Mapping {
                    respond::BodyView::Json(content::syn_json(x))
                } else {
                    error_body(x.shown@, 404)
                },
                None => error_body("not found"@, 404),
            },
        }),
{
    reveal_with_fuel(realises, 2);
    if realises(ServeBuiltin::Fail.result(args), v) {
        let w = v.data->Server_0->Envelope_value;
        lemma_error_json(failure(args).1, failure(args).0, w);
    }
    if realises(ServeBuiltin::NotFound.result(args), v) {
        let w = v.data->Server_0->Envelope_value;
        match argument(args, 0) {
            Some(x) => if !(x.data is Mapping) {
                lemma_error_json(x.shown@, 404, w);
            },
            None => {
                lemma_error_json("not found"@, 404, w);
            },
        }
    }
}

proof fn lemma_node_fields(kind: Seq<char>, ts: Seq<(Seq<char>, NewTree)>, v: SynValue, i: int)
    requires
        realises(node_tree(kind, ts), v),
        0 <= i < ts.len(),
        ts[i].0 != "kind"@,
        forall|j: int| 0 <= j < i ==> (#[trigger] ts[j]).0 != ts[i].0,
    ensures
        value::field_of(v, "kind"@) matches Some(k) && realises(NewTree::Text(kind), k),
        value::field_text(v, "kind"@) == kind,
        value::field_of(v, ts[i].0) matches Some(x) && realises(ts[i].1, x),
{
    let all = node_tree(kind, ts)->Node_0;
    let fields = v.data->Server_0->Node_0;
    assert(fields@[0].0@ == all[0].0 && realises(all[0].1, fields@[0].1));
    value::lemma_field_index(fields@, "kind"@, 0);
    assert(fields@[i + 1].0@ == all[i + 1].0 && realises(all[i + 1].1, fields@[i + 1].1));
    assert forall|j: int| 0 <= j < i + 1 implies (#[trigger] fields@[j]).0@ != ts[i].0 by {
        assert(fields@[j].0@ == all[j].0);
        if j > 0 {
            assert(all[j] == ts[j - 1]);
        }
    }
    value::lemma_field_index(fields@, ts[i].0, i + 1);
}

/// A heading, a paragraph, a link, an image and a code block appear in HTML with the texts
/// that they were made with, escaped; the text of a `raw` node appears as it is.
pub proof fn law_nodes_show_their_texts(args: Seq<SynValue>, v: SynValue)
    ensures
        realises(ServeBuiltin::Heading.result(args), v) ==> render::node_html(v) == "<h"@
            + numeral::signed_decimal(render::heading_level(v)) + ">"@ + render::html_text(
            arg_text(argument(args, 1)),
        ) + "</h"@ + numeral::signed_decimal(render::heading_level(v)) + ">\n"@,
        realises(ServeBuiltin::Heading.result(args), v) && 1 <= arg_int(argument(args, 0), 1) <= 6
            ==> render::heading_level(v) == arg_int(argument(args, 0), 1),
        realises(ServeBuiltin::Prose.result(args), v) ==> render::node_html(v) == "<p>"@
            + render::html_text(arg_text(argument(args, 0))) + "</p>\n"@,
        realises(ServeBuiltin::Link.result(args), v) ==> render::node_html(v) == "<a href=\""@
            + render::html_text(arg_text(argument(args, 1))) + "\">"@ + render::html_text(
            arg_text(argument(args, 0)),
        ) + "</a>\n"@,
        realises(ServeBuiltin::Image.result(args), v) ==> render::node_html(v) == "<img src=\""@
            + render::html_text(arg_text(argument(args, 0))) + "\" alt=\""@ + render::html_text(
            arg_text(argument(args, 1)),
        ) + "\">\n"@,
        realises(ServeBuiltin::Code.result(args), v) ==> render::node_html(v) == "<pre><code"@
            + render::language_class(
            if args.len() > 1 {
                arg_text(argument(args, 1))
            } else {
                seq![]
            },
        ) + ">"@ + render::html_text(arg_text(argument(args, 0))) + "</code></pre>\n"@,
        realises(ServeBuiltin::Raw.result(args), v) ==> render::node_html(v) == arg_text(
            argument(args, 0),
        ),
{
    lemma_words();
    let first = argument(args, 0);
    let second = argument(args, 1);
    if realises(ServeBuiltin::Heading.result(args), v) {
        let ts = seq![
            ("level"@, NewTree::Int(arg_int(first, 1) as int)),
            ("text"@, NewTree::Text(arg_text(second))),
        ];
        lemma_node_fields("heading"@, ts, v, 0);
        lemma_node_fields("heading"@, ts, v, 1);
    }
    if realises(ServeBuiltin::Prose.result(args), v) {
        lemma_node_fields("prose"@, seq![("text"@, NewTree::Text(arg_text(first)))], v, 0);
    }
    if realises(ServeBuiltin::Link.result(args), v) {
        let ts = seq![
            ("text"@, NewTree::Text(arg_text(first))),
            ("href"@, NewTree::Text(arg_text(second))),
        ];
        lemma_node_fields("link"@, ts, v, 0);
        lemma_node_fields("link"@, ts, v, 1);
    }
    if realises(ServeBuiltin::Image.result(args), v) {
        let ts = seq![
            ("src"@, NewTree::Text(arg_text(first))),
            ("alt"@, NewTree::Text(arg_text(second))),
        ];
        lemma_node_fields("image"@, ts, v, 0);
        lemma_node_fields("image"@, ts, v, 1);
    }
    if realises(ServeBuiltin::Code.result(args), v) {
        let lang = if args.len() > 1 {
            NewTree::Text(arg_text(second))
        } else {
            NewTree::Nothing
        };
        let ts = seq![("text"@, NewTree::Text(arg_text(first))), ("lang"@, lang)];
        lemma_node_fields("code"@, ts, v, 0);
        lemma_node_fields("code"@, ts, v, 1);
    }
    if realises(ServeBuiltin::Raw.result(args), v) {
        lemma_node_fields("raw"@, seq![("html"@, NewTree::Text(arg_text(first)))], v, 0);
    }
}

/// The words that the vocabulary uses are different from one another.
proof fn lemma_words()
    ensures
        "kind"@ != "level"@,
        "kind"@ != "text"@,
        "kind"@ != "href"@,
        "kind"@ != "src"@,
        "kind"@ != "alt"@,
        "kind"@ != "lang"@,
        "kind"@ != "html"@,
        "level"@ != "text"@,
        "text"@ != "href"@,
        "src"@ != "alt"@,
        "text"@ != "lang"@,
        "prose"@ != "heading"@,
        "link"@ != "heading"@ && "link"@ != "prose"@ && "link"@ != "list"@ && "link"@
            != "ordered_list"@,
        "image"@ != "heading"@ && "image"@ != "prose"@ && "image"@ != "list"@ && "image"@
            != "ordered_list"@ && "image"@ != "link"@,
        "code"@ != "heading"@ && "code"@ != "prose"@ && "code"@ != "list"@ && "code"@
            != "ordered_list"@ && "code"@ != "link"@ && "code"@ != "image"@ && "code"@ != "section"@,
        "raw"@ != "heading"@ && "raw"@ != "prose"@ && "raw"@ != "list"@ && "raw"@ != "ordered_list"@
            && "raw"@ != "link"@ && "raw"@ != "image"@ && "raw"@ != "section"@ && "raw"@ != "code"@,
{
    reveal_strlit("kind");
    reveal_strlit("level");
    reveal_strlit("text");
    reveal_strlit("href");
    reveal_strlit("src");
    reveal_strlit("alt");
    reveal_strlit("lang");
    reveal_strlit("html");
    reveal_strlit("heading");
    reveal_strlit("prose");
    reveal_strlit("list");
    reveal_strlit("ordered_list");
    reveal_strlit("link");
    reveal_strlit("image");
    reveal_strlit("section");
    reveal_strlit("code");
    reveal_strlit("raw");
    assert("kind"@[0] == 'k' && "level"@[0] == 'l' && "text"@[0] == 't' && "href"@[0] == 'h'
        && "src"@[0] == 's' && "alt"@[0] == 'a' && "lang"@[0] == 'l' && "html"@[0] == 'h');
    assert("heading"@[0] == 'h' && "prose"@[0] == 'p' && "list"@[0] == 'l' && "ordered_list"@[0]
        == 'o' && "link"@[0] == 'l' && "image"@[0] == 'i' && "section"@[0] == 's' && "code"@[0]
        == 'c' && "raw"@[0] == 'r');
    assert("list"@[2] == 's' && "link"@[2] == 'n');
}

/// The names of fields are different from one another.
proof fn lemma_field_names()
    ensures
        "kind"@ != "nodes"@ && "kind"@ != "items"@ && "kind"@ != "meta"@,
        "nodes"@ != "items"@ && "nodes"@ != "meta"@ && "items"@ != "meta"@,
        "level"@ != "text"@ && "level"@ != "href"@ && "level"@ != "src"@ && "level"@ != "alt"@
            && "level"@ != "lang"@ && "level"@ != "html"@,
        "text"@ != "href"@ && "text"@ != "src"@ && "text"@ != "alt"@ && "text"@ != "lang"@
            && "text"@ != "html"@,
        "href"@ != "src"@ && "href"@ != "alt"@ && "href"@ != "lang"@ && "href"@ != "html"@,
        "src"@ != "alt"@ && "src"@ != "lang"@ && "src"@ != "html"@,
        "alt"@ != "lang"@ && "alt"@ != "html"@,
        "lang"@ != "html"@,
{
    reveal_strlit("kind");
    reveal_strlit("level");
    reveal_strlit("text");
    reveal_strlit("href");
    reveal_strlit("src");
    reveal_strlit("alt");
    reveal_strlit("lang");
    reveal_strlit("html");
    reveal_strlit("nodes");
    reveal_strlit("items");
    reveal_strlit("meta");
    assert("kind"@[0] == 'k' && "level"@[0] == 'l' && "text"@[0] == 't' && "href"@[0] == 'h'
        && "src"@[0] == 's' && "alt"@[0] == 'a' && "lang"@[0] == 'l' && "html"@[0] == 'h'
        && "nodes"@[0] == 'n' && "items"@[0] == 'i' && "meta"@[0] == 'm');
    assert("level"@.len() == 5 && "lang"@.len() == 4);
    assert("href"@[1] == 'r' && "html"@[1] == 't');
}

proof fn lemma_no_field(kind: Seq<char>, ts: Seq<(Seq<char>, NewTree)>, v: SynValue, key: Seq<char>)
    requires
        realises(node_tree(kind, ts), v),
        key != "kind"@,
        forall|j: int| 0 <= j < ts.len() ==> (#[trigger] ts[j]).0 != key,
    ensures
        value::field_of(v, key) is None,
{
    let all = node_tree(kind, ts)->Node_0;
    let fields = v.data->Server_0->Node_0;
    assert forall|j: int| 0 <= j < fields@.len() implies (#[trigger] fields@[j]).0@ != key by {
        assert(fields@[j].0@ == all[j].0);
        if j > 0 {
            assert(all[j] == ts[j - 1]);
        }
    }
    value::law_first_field_counts(fields@, key, 0);
}

proof fn lemma_given_list(x: SynValue, arg: Option<SynValue>)
    requires
        realises(NewTree::List(arg_nodes(arg)), x),
    ensures
        x.data is List,
        arg is Some && arg->0.data is List ==> x.data->List_0@ == arg->0.data->List_0@,
        !(arg is Some && arg->0.data is List) ==> x.data->List_0@.len() == 0,
{
    if let Some(a) = arg {
        if let SynData::List(items) = a.data {
            let ts = arg_nodes(arg);
            assert forall|i: int| 0 <= i < items@.len() implies #[trigger] x.data->List_0@[i]
                == items@[i] by {
                assert(realises(ts[i], x.data->List_0@[i]));
                assert(ts[i] == NewTree::Given(items@[i]));
            }
            assert(x.data->List_0@ =~= items@);
        }
    }
}

/// The elements of the list that is the first argument, none where it is no list.
pub open spec fn items_given(args: Seq<SynValue>) -> Seq<SynValue> {
    if args.len() > 0 && args[0].data is List {
        args[0].data->List_0@
    } else {
        seq![]
    }
}

/// The entries of the map that is the second argument, none where it is no map.
pub open spec fn entries_given(args: Seq<SynValue>) -> Seq<(String, SynValue)> {
    if args.len() > 1 && args[1].data is Mapping {
        args[1].data->Mapping_0@
    } else {
        seq![]
    }
}

/// What `list` and `ordered_list` make of a list shows every element of it, in order and once,
/// in HTML and in Markdown; of anything else they make an empty list.
pub proof fn law_lists_show_what_they_were_made_of(args: Seq<SynValue>, v: SynValue)
    ensures
        ({
            let items = items_given(args);
            let laid = items.map_values(
                |i: SynValue|
                    "<li>"@ + (if i.node() {
                        render::node_html(i)
                    } else {
                        render::html_text(i.shown@)
                    }) + "</li>"@,
            ).flatten();
            &&& realises(ServeBuiltin::List.result(args), v) ==> render::node_html(v) == "<ul>"@
                + laid + "</ul>\n"@ && render::node_md(v) == text::joined(
                Seq::new(items.len(), |i: int| "- "@ + render::line_shown(items[i])),
                "\n"@,
            )
            &&& realises(ServeBuiltin::OrderedList.result(args), v) ==> render::node_html(v)
                == "<ol>"@ + laid + "</ol>\n"@ && render::node_md(v) == text::joined(
                Seq::new(
                    items.len(),
                    |i: int|
                        numeral::decimal((i + 1) as nat) + ". "@ + render::line_shown(items[i]),
                ),
                "\n"@,
            )
        }),
{
    lemma_field_names();
    let first = argument(args, 0);
    let items = items_given(args);
    let ts = seq![("items"@, NewTree::List(arg_nodes(first)))];
    if realises(ServeBuiltin::List.result(args), v) {
        lemma_node_fields("list"@, ts, v, 0);
        let x = value::field_of(v, "items"@)->0;
        lemma_given_list(x, first);
        assert(x.data->List_0@ =~= items);
        render::law_lists_show_their_items(v, x, x.data->List_0);
        lemma_same_items(items);
    }
    if realises(ServeBuiltin::OrderedList.result(args), v) {
        lemma_node_fields("ordered_list"@, ts, v, 0);
        let x = value::field_of(v, "items"@)->0;
        lemma_given_list(x, first);
        assert(x.data->List_0@ =~= items);
        render::law_lists_show_their_items(v, x, x.data->List_0);
        lemma_same_items(items);
    }
}

proof fn lemma_same_items(items: Seq<SynValue>)
    ensures
        items.map_values(
            |i: SynValue|
                "<li>"@ + (if i.node() {
                    render::node_html(i)
                } else {
                    render::html_text(i.shown@)
                }) + "</li>"@,
        ) == items.map_values(|i: SynValue| "<li>"@ + render::item_shown(i) + "</li>"@),
{
    assert(items.map_values(
        |i: SynValue|
            "<li>"@ + (if i.node() {
                render::node_html(i)
            } else {
                render::html_text(i.shown@)
            }) + "</li>"@,
    ) =~= items.map_values(|i: SynValue| "<li>"@ + render::item_shown(i) + "</li>"@));
}

/// What `page` and `section` make of a list shows those of its elements that are nodes, in
/// order and once, in HTML, in Markdown and in JSON; what they make of anything else is empty.
pub proof fn law_pages_show_what_they_were_made_of(args: Seq<SynValue>, v: SynValue)
    ensures
        ({
            let items = items_given(args);
            let nodes = items.filter(|i: SynValue| i.node());
            let html = nodes.map_values(|i: SynValue| render::node_html(i)).flatten();
            let md = text::joined(nodes.map_values(|i: SynValue| render::node_md(i)), "\n\n"@);
            let tree = JsonTree::Array(nodes.map_values(|i: SynValue| content::node_json(i)));
            &&& realises(ServeBuiltin::Page.result(args), v) ==> render::node_html(v) == html
                && render::node_md(v) == md && (content::node_json(v) matches JsonTree::Object(m)
                && m.len() == 3 && m[0] == ("type"@, JsonTree::Str("page"@)) && m[1].0 == "meta"@
                && m[2] == ("nodes"@, tree))
            &&& realises(ServeBuiltin::Section.result(args), v) ==> render::node_html(v)
                == "<section>\n"@ + html + "</section>\n"@ && render::node_md(v) == md
                && content::node_json(v) == JsonTree::Object(
                seq![("type"@, JsonTree::Str("section"@)), ("nodes"@, tree)],
            )
        }),
{
    lemma_field_names();
    render::lemma_kinds();
    let first = argument(args, 0);
    let items = items_given(args);
    if realises(ServeBuiltin::Page.result(args), v) {
        let ts = seq![
            ("nodes"@, NewTree::List(arg_nodes(first))),
            ("meta"@, NewTree::Mapping(arg_meta(argument(args, 1)))),
        ];
        lemma_node_fields("page"@, ts, v, 0);
        let x = value::field_of(v, "nodes"@)->0;
        lemma_given_list(x, first);
        assert(x.data->List_0@ =~= items);
        render::law_pages_show_their_nodes(v, x, x.data->List_0);
        content::law_nodes_of_a_page_as_json(items);
    }
    if realises(ServeBuiltin::Section.result(args), v) {
        let ts = seq![("nodes"@, NewTree::List(arg_nodes(first)))];
        lemma_node_fields("section"@, ts, v, 0);
        let x = value::field_of(v, "nodes"@)->0;
        lemma_given_list(x, first);
        assert(x.data->List_0@ =~= items);
        render::law_pages_show_their_nodes(v, x, x.data->List_0);
        content::law_nodes_of_a_page_as_json(items);
    }
}

/// A page keeps the metadata that it was made with: under each key the text of the first entry
/// with that key, and under no other key anything. In JSON they are an object with the same
/// entries, in order.
pub proof fn law_pages_keep_their_metadata(
    args: Seq<SynValue>,
    v: SynValue,
    key: Seq<char>,
    i: int,
)
    requires
        realises(ServeBuiltin::Page.result(args), v),
    ensures
        ({
            let entries = entries_given(args);
            &&& 0 <= i < entries.len() && entries[i].0@ == key && (forall|j: int|
                0 <= j < i ==> (#[trigger] entries[j]).0@ != key) ==> render::page_meta(v, key)
                == Some(arg_text(Some(entries[i].1)))
            &&& (forall|j: int| 0 <= j < entries.len() ==> (#[trigger] entries[j]).0@ != key)
                ==> render::page_meta(v, key) is None
            &&& content::node_json(v) matches JsonTree::Object(m)
            &&& m.len() == 3
            &&& m[1] == (
                "meta"@,
                JsonTree::Object(
                    entries.map_values(
                        |e: (String, SynValue)| (e.0@, JsonTree::Str(arg_text(Some(e.1)))),
                    ),
                ),
            )
        }),
{
    lemma_field_names();
    render::lemma_kinds();
    let second = argument(args, 1);
    let entries = entries_given(args);
    let ts = seq![
        ("nodes"@, NewTree::List(arg_nodes(argument(args, 0)))),
        ("meta"@, NewTree::Mapping(arg_meta(second))),
    ];
    lemma_node_fields("page"@, ts, v, 0);
    lemma_node_fields("page"@, ts, v, 1);
    let m = value::field_of(v, "meta"@)->0;
    let made = m.data->Mapping_0;
    let mt = arg_meta(second);
    assert(mt.len() == entries.len());
    assert forall|j: int| 0 <= j < entries.len() implies (#[trigger] made@[j]).0@ == entries[j].0@
        && made@[j].1.shown@ == arg_text(Some(entries[j].1)) && content::syn_json(made@[j].1)
        == JsonTree::Str(arg_text(Some(entries[j].1))) by {
        assert(made@[j].0@ == mt[j].0 && realises(mt[j].1, made@[j].1));
        assert(mt[j] == (entries[j].0@, NewTree::Text(arg_text(Some(entries[j].1)))));
    }
    if 0 <= i < entries.len() && entries[i].0@ == key && (forall|j: int|
        0 <= j < i ==> (#[trigger] entries[j]).0@ != key) {
        assert forall|j: int| 0 <= j < i implies (#[trigger] made@[j]).0@ != key by {
            assert(entries[j].0@ != key);
        }
        assert(made@[i].0@ == key);
    }
    if forall|j: int| 0 <= j < entries.len() ==> (#[trigger] entries[j]).0@ != key {
        assert forall|j: int| 0 <= j < made@.len() implies (#[trigger] made@[j]).0@ != key by {
            assert(entries[j].0@ != key);
        }
    }
    render::law_page_metadata(v, m, made, key, i);
    content::law_elements_keep_their_order(seq![], made@);
    assert(content::entry_jsons(made@, made@.len()) =~= entries.map_values(
        |e: (String, SynValue)| (e.0@, JsonTree::Str(arg_text(Some(e.1)))),
    ));
}

/// The other nodes in Markdown: a heading behind as many signs as its level, a paragraph as its
/// text, a link and an image with their targets, a code block between fences with its language,
/// raw content as it is.
pub proof fn law_nodes_as_markdown(args: Seq<SynValue>, v: SynValue)
    ensures
        ({
            let first = arg_text(argument(args, 0));
            let second = arg_text(argument(args, 1));
            let level = arg_int(argument(args, 0), 1);
            let signs = if level < 1 {
                1
            } else if level > 6 {
                6
            } else {
                level as int
            };
            &&& realises(ServeBuiltin::Heading.result(args), v) ==> render::node_md(v) == Seq::new(
                signs as nat,
                |i: int| '#',
            ) + seq![' '] + second
            &&& realises(ServeBuiltin::Prose.result(args), v) ==> render::node_md(v) == first
            &&& realises(ServeBuiltin::Link.result(args), v) ==> render::node_md(v) == seq!['[']
                + first + seq![']', '('] + second + seq![')']
            &&& realises(ServeBuiltin::Image.result(args), v) ==> render::node_md(v) == seq!['!', '[']
                + second + seq![']', '('] + first + seq![')']
            &&& realises(ServeBuiltin::Code.result(args), v) ==> render::node_md(v) == seq![
                '`',
                '`',
                '`',
            ] + (if args.len() > 1 {
                second
            } else {
                seq![]
            }) + seq!['\n'] + first + seq!['\n', '`', '`', '`']
            &&& realises(ServeBuiltin::Raw.result(args), v) ==> render::node_md(v) == first
        }),
{
    lemma_words();
    lemma_field_names();
    render::lemma_kinds();
    reveal_strlit(" ");
    reveal_strlit("[");
    reveal_strlit("](");
    reveal_strlit(")");
    reveal_strlit("![");
    reveal_strlit("```");
    reveal_strlit("\n");
    reveal_strlit("\n```");
    assert(" "@ =~= seq![' ']);
    assert("["@ =~= seq!['[']);
    assert("]("@ =~= seq![']', '(']);
    assert(")"@ =~= seq![')']);
    assert("!["@ =~= seq!['!', '[']);
    assert("```"@ =~= seq!['`', '`', '`']);
    assert("\n"@ =~= seq!['\n']);
    assert("\n```"@ =~= seq!['\n', '`', '`', '`']);
    let first = argument(args, 0);
    let second = argument(args, 1);
    if realises(ServeBuiltin::Heading.result(args), v) {
        let ts = seq![
            ("level"@, NewTree::Int(arg_int(first, 1) as int)),
            ("text"@, NewTree::Text(arg_text(second))),
        ];
        lemma_node_fields("heading"@, ts, v, 0);
        lemma_node_fields("heading"@, ts, v, 1);
    }
    if realises(ServeBuiltin::Prose.result(args), v) {
        lemma_node_fields("prose"@, seq![("text"@, NewTree::Text(arg_text(first)))], v, 0);
    }
    if realises(ServeBuiltin::Link.result(args), v) {
        let ts = seq![
            ("text"@, NewTree::Text(arg_text(first))),
            ("href"@, NewTree::Text(arg_text(second))),
        ];
        lemma_node_fields("link"@, ts, v, 0);
        lemma_node_fields("link"@, ts, v, 1);
    }
    if realises(ServeBuiltin::Image.result(args), v) {
        let ts = seq![
            ("src"@, NewTree::Text(arg_text(first))),
            ("alt"@, NewTree::Text(arg_text(second))),
        ];
        lemma_node_fields("image"@, ts, v, 0);
        lemma_node_fields("image"@, ts, v, 1);
    }
    if realises(ServeBuiltin::Code.result(args), v) {
        let lang = if args.len() > 1 {
            NewTree::Text(arg_text(second))
        } else {
            NewTree::Nothing
        };
        let ts = seq![("text"@, NewTree::Text(arg_text(first))), ("lang"@, lang)];
        lemma_node_fields("code"@, ts, v, 0);
        lemma_node_fields("code"@, ts, v, 1);
    }
    if realises(ServeBuiltin::Raw.result(args), v) {
        lemma_node_fields("raw"@, seq![("html"@, NewTree::Text(arg_text(first)))], v, 0);
    }
}

/// A code block names its language in HTML, escaped, and nothing where it has none. A heading
/// has the level that it was given, brought between one and six.
pub proof fn law_levels_and_languages_in_html(args: Seq<SynValue>, v: SynValue)
    ensures
        realises(ServeBuiltin::Code.result(args), v) && args.len() > 1 && arg_text(
            argument(args, 1),
        ).len() > 0 ==> render::node_html(v) == "<pre><code"@ + " class=\"language-"@
            + render::html_text(arg_text(argument(args, 1))) + "\""@ + ">"@ + render::html_text(
            arg_text(argument(args, 0)),
        ) + "</code></pre>\n"@,
        realises(ServeBuiltin::Code.result(args), v) && args.len() <= 1 ==> render::node_html(v)
            == "<pre><code"@ + ">"@ + render::html_text(arg_text(argument(args, 0)))
            + "</code></pre>\n"@,
        realises(ServeBuiltin::Heading.result(args), v) ==> ({
            let n = arg_int(argument(args, 0), 1);
            let level = numeral::decimal(
                if n < 1 {
                    1
                } else if n > 6 {
                    6
                } else {
                    n as nat
                },
            );
            render::node_html(v) == "<h"@ + level + ">"@ + render::html_text(
                arg_text(argument(args, 1)),
            ) + "</h"@ + level + ">\n"@
        }),
{
    law_nodes_show_their_texts(args, v);
    lemma_words();
    if realises(ServeBuiltin::Heading.result(args), v) {
        let ts = seq![
            ("level"@, NewTree::Int(arg_int(argument(args, 0), 1) as int)),
            ("text"@, NewTree::Text(arg_text(argument(args, 1)))),
        ];
        lemma_node_fields("heading"@, ts, v, 0);
    }
    if realises(ServeBuiltin::Code.result(args), v) {
        let first = arg_text(argument(args, 0));
        let second = arg_text(argument(args, 1));
        if args.len() > 1 && second.len() > 0 {
            assert("<pre><code"@ + render::language_class(second) =~= "<pre><code"@
                + " class=\"language-"@ + render::html_text(second) + "\""@);
        }
        if args.len() <= 1 {
            assert("<pre><code"@ + render::language_class(Seq::<char>::empty()) =~= "<pre><code"@);
        }
    }
}

/// The other nodes in JSON: an object with the kind of the node and what it was made with, in
/// a fixed order; a code block without a language names none.
pub proof fn law_nodes_as_json(args: Seq<SynValue>, v: SynValue)
    ensures
        ({
            let first = JsonTree::Str(arg_text(argument(args, 0)));
            let second = JsonTree::Str(arg_text(argument(args, 1)));
            &&& realises(ServeBuiltin::Heading.result(args), v) ==> content::node_json(v)
                == JsonTree::Object(
                seq![
                    ("type"@, JsonTree::Str("heading"@)),
                    ("level"@, JsonTree::Int(arg_int(argument(args, 0), 1) as int)),
                    ("text"@, second),
                ],
            )
            &&& realises(ServeBuiltin::Prose.result(args), v) ==> content::node_json(v)
                == JsonTree::Object(seq![("type"@, JsonTree::Str("prose"@)), ("text"@, first)])
            &&& realises(ServeBuiltin::Link.result(args), v) ==> content::node_json(v)
                == JsonTree::Object(
                seq![("type"@, JsonTree::Str("link"@)), ("text"@, first), ("href"@, second)],
            )
            &&& realises(ServeBuiltin::Image.result(args), v) ==> content::node_json(v)
                == JsonTree::Object(
                seq![("type"@, JsonTree::Str("image"@)), ("src"@, first), ("alt"@, second)],
            )
            &&& realises(ServeBuiltin::Code.result(args), v) ==> content::node_json(v)
                == JsonTree::Object(
                seq![("type"@, JsonTree::Str("code"@)), ("text"@, first)] + (if args.len() > 1 {
                    seq![("lang"@, second)]
                } else {
                    seq![]
                }),
            )
            &&& realises(ServeBuiltin::Raw.result(args), v) ==> content::node_json(v)
                == JsonTree::Object(seq![("type"@, JsonTree::Str("raw"@)), ("html"@, first)])
        }),
{
    lemma_words();
    lemma_field_names();
    render::lemma_kinds();
    let a = argument(args, 0);
    let b = argument(args, 1);
    let first = JsonTree::Str(arg_text(a));
    let second = JsonTree::Str(arg_text(b));
    if realises(ServeBuiltin::Heading.result(args), v) {
        let ts = seq![
            ("level"@, NewTree::Int(arg_int(a, 1) as int)),
            ("text"@, NewTree::Text(arg_text(b))),
        ];
        lemma_leaves("heading"@, ts, v);
        assert(content::node_json(v)->Object_0 =~= seq![
            ("type"@, JsonTree::Str("heading"@)),
            ("level"@, JsonTree::Int(arg_int(a, 1) as int)),
            ("text"@, second),
        ]);
    }
    if realises(ServeBuiltin::Prose.result(args), v) {
        lemma_leaves("prose"@, seq![("text"@, NewTree::Text(arg_text(a)))], v);
        assert(content::node_json(v)->Object_0 =~= seq![
            ("type"@, JsonTree::Str("prose"@)),
            ("text"@, first),
        ]);
    }
    if realises(ServeBuiltin::Link.result(args), v) {
        let ts = seq![("text"@, NewTree::Text(arg_text(a))), ("href"@, NewTree::Text(arg_text(b)))];
        lemma_leaves("link"@, ts, v);
        assert(content::node_json(v)->Object_0 =~= seq![
            ("type"@, JsonTree::Str("link"@)),
            ("text"@, first),
            ("href"@, second),
        ]);
    }
    if realises(ServeBuiltin::Image.result(args), v) {
        let ts = seq![("src"@, NewTree::Text(arg_text(a))), ("alt"@, NewTree::Text(arg_text(b)))];
        lemma_leaves("image"@, ts, v);
        assert(content::node_json(v)->Object_0 =~= seq![
            ("type"@, JsonTree::Str("image"@)),
            ("src"@, first),
            ("alt"@, second),
        ]);
    }
    if realises(ServeBuiltin::Code.result(args), v) {
        let lang = if args.len() > 1 {
            NewTree::Text(arg_text(b))
        } else {
            NewTree::Nothing
        };
        let ts = seq![("text"@, NewTree::Text(arg_text(a))), ("lang"@, lang)];
        lemma_leaves("code"@, ts, v);
        assert(content::node_json(v)->Object_0 =~= seq![
            ("type"@, JsonTree::Str("code"@)),
            ("text"@, first),
        ] + (if args.len() > 1 {
            seq![("lang"@, second)]
        } else {
            seq![]
        }));
    }
    if realises(ServeBuiltin::Raw.result(args), v) {
        lemma_leaves("raw"@, seq![("html"@, NewTree::Text(arg_text(a)))], v);
        assert(content::node_json(v)->Object_0 =~= seq![
            ("type"@, JsonTree::Str("raw"@)),
            ("html"@, first),
        ]);
    }
}

/// The JSON form of a text or an integer that a node holds, or none where it holds nothing.
spec fn leaf_form(key: Seq<char>, t: NewTree) -> Seq<(Seq<char>, JsonTree)> {
    match t {
        NewTree::Text(s) => seq![(key, JsonTree::Str(s))],
        NewTree::Int(i) => seq![(key, JsonTree::Int(i))],
        _ => seq![],
    }
}

proof fn lemma_leaf(
    kind: Seq<char>,
    ts: Seq<(Seq<char>, NewTree)>,
    v: SynValue,
    key: Seq<char>,
    n: nat,
)
    requires
        realises(node_tree(kind, ts), v),
        1 <= n <= 7,
        content::leaf_keys()[n - 1] == key,
        key != "kind"@,
        ts.len() == 1 || ts.len() == 2,
        ts.len() == 2 ==> ts[0].0 != ts[1].0,
        forall|i: int|
            0 <= i < ts.len() ==> (#[trigger] ts[i]).1 is Text || ts[i].1 is Int || ts[i].1 is Nothing,
    ensures
        content::leaf_members(v, n) == content::leaf_members(v, (n - 1) as nat) + (if ts[0].0
            == key {
            leaf_form(key, ts[0].1)
        } else if ts.len() == 2 && ts[1].0 == key {
            leaf_form(key, ts[1].1)
        } else {
            seq![]
        }),
{
    let before = content::leaf_members(v, (n - 1) as nat);
    assert(before + Seq::<(Seq<char>, JsonTree)>::empty() =~= before);
    if ts[0].0 == key {
        lemma_node_fields(kind, ts, v, 0);
    } else if ts.len() == 2 && ts[1].0 == key {
        lemma_node_fields(kind, ts, v, 1);
    } else {
        lemma_no_field(kind, ts, v, key);
    }
    if let Some(x) = value::field_of(v, key) {
        content::law_values_have_their_json_form(x);
        assert(before.push((key, content::syn_json(x))) =~= before + seq![
            (key, content::syn_json(x)),
        ]);
    }
}

proof fn lemma_leaves(kind: Seq<char>, ts: Seq<(Seq<char>, NewTree)>, v: SynValue)
    requires
        realises(node_tree(kind, ts), v),
        kind != "page"@,
        kind != "list"@,
        kind != "ordered_list"@,
        kind != "section"@,
        ts.len() == 1 || ts.len() == 2,
        forall|i: int|
            0 <= i < ts.len() ==> (#[trigger] ts[i]).1 is Text || ts[i].1 is Int || ts[i].1 is Nothing,
        ts[0].0 == "text"@ && ts.len() == 1 || ts[0].0 == "html"@ && ts.len() == 1 || ts.len() == 2
            && ts[0].0 == "level"@ && ts[1].0 == "text"@ || ts.len() == 2 && ts[0].0 == "text"@
            && ts[1].0 == "href"@ || ts.len() == 2 && ts[0].0 == "src"@ && ts[1].0 == "alt"@
            || ts.len() == 2 && ts[0].0 == "text"@ && ts[1].0 == "lang"@,
    ensures
        content::node_json(v) == JsonTree::Object(
            seq![("type"@, JsonTree::Str(kind))] + leaf_form(ts[0].0, ts[0].1) + (if ts.len()
                == 2 {
                leaf_form(ts[1].0, ts[1].1)
            } else {
                seq![]
            }),
        ),
{
    lemma_words();
    lemma_field_names();
    lemma_node_fields(kind, ts, v, 0);
    lemma_leaf(kind, ts, v, "level"@, 1);
    lemma_leaf(kind, ts, v, "text"@, 2);
    lemma_leaf(kind, ts, v, "href"@, 3);
    lemma_leaf(kind, ts, v, "src"@, 4);
    lemma_leaf(kind, ts, v, "alt"@, 5);
    lemma_leaf(kind, ts, v, "lang"@, 6);
    lemma_leaf(kind, ts, v, "html"@, 7);
    let a = leaf_form(ts[0].0, ts[0].1);
    let b = if ts.len() == 2 {
        leaf_form(ts[1].0, ts[1].1)
    } else {
        seq![]
    };
    assert(content::leaf_members(v, 0) =~= Seq::<(Seq<char>, JsonTree)>::empty());
    assert(content::leaf_members(v, 7) =~= a + b);
    let t = seq![("type"@, JsonTree::Str(kind))];
    assert(t + (a + b) =~= t + a + b);
}

/// `html` is answered with its text as an HTML page, `respond` with its text under the type and
/// the status that it is given, which are plain text and 200 where it is given none.
pub proof fn law_raw_answers(args: Seq<SynValue>, v: SynValue, e: Seq<(Seq<char>, Seq<char>)>)
    ensures
        ({
            let words = vstd::utf8::encode_utf8(arg_text(argument(args, 0)));
            &&& realises(ServeBuiltin::Html.result(args), v) ==> respond::built(Some(v), e) == (
            respond::BuiltView::Ready {
                status: 200,
                body: respond::BodyView::Raw(
                    media::RawView {
                        body: words,
                        content_type: "text/html; charset=utf-8"@,
                        status: 200,
                    },
                ),
            })
            &&& realises(ServeBuiltin::Respond.result(args), v) ==> ({
                let kind = if args.len() > 1 {
                    arg_text(Some(args[1]))
                } else {
                    "text/plain; charset=utf-8"@
                };
                let status = (if args.len() > 2 && args[2].data is Number {
                    value::value_i64(args[2])
                } else {
                    200
                }) as u16;
                respond::built(Some(v), e) == (respond::BuiltView::Ready {
                    status,
                    body: respond::BodyView::Raw(
                        media::RawView { body: words, content_type: kind, status },
                    ),
                })
            })
        }),
{
    respond::law_values_are_answered(Some(v), e);
}

/// `ok` and `created` are answered with the value that they are given, `content` with what it
/// is given as content, in every format.
pub proof fn law_given_values_are_answered(
    args: Seq<SynValue>,
    v: SynValue,
    e: Seq<(Seq<char>, Seq<char>)>,
    fmt: Seq<char>,
)
    requires
        args.len() > 0,
    ensures
        !respond::is_collection(args[0]) ==> {
            &&& realises(ServeBuiltin::Okay.result(args), v) ==> respond::built(Some(v), e) == (
            respond::BuiltView::Ready {
                status: 200,
                body: respond::BodyView::Json(content::syn_json(args[0])),
            })
            &&& realises(ServeBuiltin::Created.result(args), v) ==> respond::built(Some(v), e) == (
            respond::BuiltView::Ready {
                status: 201,
                body: respond::BodyView::Json(content::syn_json(args[0])),
            })
        },
        args[0].data matches SynData::List(items) ==> {
            &&& realises(ServeBuiltin::Okay.result(args), v) ==> respond::built(Some(v), e) == (
            respond::BuiltView::Ready {
                status: 200,
                body: respond::BodyView::Json(respond::paged_json(items@, e)),
            })
            &&& realises(ServeBuiltin::Created.result(args), v) ==> respond::built(Some(v), e) == (
            respond::BuiltView::Ready {
                status: 201,
                body: respond::BodyView::Json(respond::paged_json(items@, e)),
            })
        },
        realises(ServeBuiltin::Content.result(args), v) ==> v.data == SynData::Server(
            v.data->Server_0,
        ) && *(v.data->Server_0) == ServerValue::Content(args[0]),
        realises(ServeBuiltin::Content.result(args), v) && fmt != "json"@ && fmt != "md"@
            ==> render::rendered(v, fmt).body == vstd::utf8::encode_utf8(
            render::html_document(args[0]),
        ),
{
    reveal_with_fuel(realises, 3);
    respond::law_values_are_answered(Some(v), e);
    content::law_values_have_their_json_form(args[0]);
    if realises(ServeBuiltin::Content.result(args), v) {
        render::law_content_is_rendered(v, args[0], fmt);
    }
}

/// The ways to fail: with a status and a message in either order, with a message alone, which
/// is answered 400, with a status alone, whose message is "error", and with neither.
pub proof fn law_ways_to_fail(
    args: Seq<SynValue>,
    v: SynValue,
    e: Seq<(Seq<char>, Seq<char>)>,
    n: i64,
)
    requires
        realises(ServeBuiltin::Fail.result(args), v),
    ensures
        args.len() >= 2 && args[0].data == SynData::Number(Number::Int(n)) ==> respond::built(
            Some(v),
            e,
        ) == (respond::BuiltView::Ready {
            status: n as u16,
            body: error_body(args[1].shown@, n as int),
        }),
        args.len() >= 2 && !(args[0].data is Number) && args[1].data == SynData::Number(
            Number::Int(n),
        ) ==> respond::built(Some(v), e) == (respond::BuiltView::Ready {
            status: n as u16,
            body: error_body(args[0].shown@, n as int),
        }),
        args.len() >= 2 && !(args[0].data is Number) && !(args[1].data is Number)
            ==> respond::built(Some(v), e) == (respond::BuiltView::Ready {
            status: 400,
            body: error_body(args[0].shown@, 400),
        }),
        args.len() == 1 && args[0].data == SynData::Number(Number::Int(n)) ==> respond::built(
            Some(v),
            e,
        ) == (respond::BuiltView::Ready {
            status: n as u16,
            body: error_body(seq!['e', 'r', 'r', 'o', 'r'], n as int),
        }),
        args.len() == 1 && !(args[0].data is Number) ==> respond::built(Some(v), e) == (
        respond::BuiltView::Ready { status: 400, body: error_body(args[0].shown@, 400) }),
        args.len() == 0 ==> respond::built(Some(v), e) == (respond::BuiltView::Ready {
            status: 400,
            body: error_body(seq!['e', 'r', 'r', 'o', 'r'], 400),
        }),
{
    reveal_strlit("error");
    assert("error"@ =~= seq!['e', 'r', 'r', 'o', 'r']);
    law_failure_helpers(args, v, e);
}

/// An argument as text is the text itself, or what the value prints; as an integer it is the
/// integer, and the default where it is no number. An argument that was not given is empty,
/// or the default.
pub proof fn law_arguments(x: SynValue, default: i64, n: i64, args: Seq<SynValue>, i: int)
    ensures
        x.data matches SynData::Text(s) ==> arg_text(Some(x)) == s@,
        !(x.data is Text) ==> arg_text(Some(x)) == x.shown@,
        arg_text(None).len() == 0,
        x.data == SynData::Number(Number::Int(n)) ==> arg_int(Some(x), default) == n,
        !(x.data is Number) ==> arg_int(Some(x), default) == default,
        arg_int(None, default) == default,
        0 <= i < args.len() ==> argument(args, i) == Some(args[i]),
        i >= args.len() ==> argument(args, i) is None,
{
}

/// A list in JSON is an object with its kind and the JSON forms of its elements, in order.
pub proof fn law_lists_as_json(args: Seq<SynValue>, v: SynValue)
    ensures
        ({
            let items = JsonTree::Array(
                items_given(args).map_values(|i: SynValue| content::syn_json(i)),
            );
            &&& realises(ServeBuiltin::List.result(args), v) ==> content::node_json(v)
                == JsonTree::Object(seq![("type"@, JsonTree::Str("list"@)), ("items"@, items)])
            &&& realises(ServeBuiltin::OrderedList.result(args), v) ==> content::node_json(v)
                == JsonTree::Object(
                seq![("type"@, JsonTree::Str("ordered_list"@)), ("items"@, items)],
            )
        }),
{
    lemma_field_names();
    render::lemma_kinds();
    let first = argument(args, 0);
    let items = items_given(args);
    let ts = seq![("items"@, NewTree::List(arg_nodes(first)))];
    if realises(ServeBuiltin::List.result(args), v) {
        lemma_node_fields("list"@, ts, v, 0);
        let x = value::field_of(v, "items"@)->0;
        lemma_given_list(x, first);
        assert(x.data->List_0@ =~= items);
        content::law_elements_keep_their_order(items, seq![]);
    }
    if realises(ServeBuiltin::OrderedList.result(args), v) {
        lemma_node_fields("ordered_list"@, ts, v, 0);
        let x = value::field_of(v, "items"@)->0;
        lemma_given_list(x, first);
        assert(x.data->List_0@ =~= items);
        content::law_elements_keep_their_order(items, seq![]);
    }
}

/// The names of the builtins are different from one another, so that each name stands for one
/// of them, and every builtin has one.
pub proof fn law_builtins_have_their_names(i: int, j: int)
    ensures
        serve_table().len() == 17,
        0 <= i < j < 17 ==> serve_table()[i].2 != serve_table()[j].2,
        serve_table().contains(("ok"@, 1, ServeBuiltin::Okay)),
        serve_table().contains(("created"@, 1, ServeBuiltin::Created)),
        serve_table().contains(("not_found"@, 1, ServeBuiltin::NotFound)),
        serve_table().contains(("fail"@, -1, ServeBuiltin::Fail)),
        serve_table().contains(("html"@, 1, ServeBuiltin::Html)),
        serve_table().contains(("respond"@, -1, ServeBuiltin::Respond)),
        serve_table().contains(("page"@, -1, ServeBuiltin::Page)),
        serve_table().contains(("heading"@, 2, ServeBuiltin::Heading)),
        serve_table().contains(("prose"@, 1, ServeBuiltin::Prose)),
        serve_table().contains(("list"@, 1, ServeBuiltin::List)),
        serve_table().contains(("ordered_list"@, 1, ServeBuiltin::OrderedList)),
        serve_table().contains(("link"@, 2, ServeBuiltin::Link)),
        serve_table().contains(("image"@, 2, ServeBuiltin::Image)),
        serve_table().contains(("section"@, 1, ServeBuiltin::Section)),
        serve_table().contains(("code"@, -1, ServeBuiltin::Code)),
        serve_table().contains(("raw"@, 1, ServeBuiltin::Raw)),
        serve_table().contains(("content"@, 1, ServeBuiltin::Content)),
{
    let t = serve_table();
    assert(t[0] == ("ok"@, 1int, ServeBuiltin::Okay));
    assert(t[1] == ("created"@, 1int, ServeBuiltin::Created));
    assert(t[2] == ("not_found"@, 1int, ServeBuiltin::NotFound));
    assert(t[3] == ("fail"@, -1int, ServeBuiltin::Fail));
    assert(t[4] == ("html"@, 1int, ServeBuiltin::Html));
    assert(t[5] == ("respond"@, -1int, ServeBuiltin::Respond));
    assert(t[6] == ("page"@, -1int, ServeBuiltin::Page));
    assert(t[7] == ("heading"@, 2int, ServeBuiltin::Heading));
    assert(t[8] == ("prose"@, 1int, ServeBuiltin::Prose));
    assert(t[9] == ("list"@, 1int, ServeBuiltin::List));
    assert(t[10] == ("ordered_list"@, 1int, ServeBuiltin::OrderedList));
    assert(t[11] == ("link"@, 2int, ServeBuiltin::Link));
    assert(t[12] == ("image"@, 2int, ServeBuiltin::Image));
    assert(t[13] == ("section"@, 1int, ServeBuiltin::Section));
    assert(t[14] == ("code"@, -1int, ServeBuiltin::Code));
    assert(t[15] == ("raw"@, 1int, ServeBuiltin::Raw));
    assert(t[16] == ("content"@, 1int, ServeBuiltin::Content));
}

} // verus!
