//! The values that pass between the language runtime and the server.
//!
//! A value that the server reads (`SynValue`) comes with the text that the runtime prints
//! for it: the rules of printing are the runtime's own. A value that the server makes
//! (`NewValue`) has no such text yet; it gets one when the runtime takes it over.

use vstd::prelude::*;

use crate::json::Float;
use crate::numeral;
use crate::text;

verus! {

/// A number: an integer of machine size, a floating-point number, or the digits of a large
/// integer.
pub enum Number {
    Int(i64),
    Float(Float),
    Big(String),
}

/// A task of the language. `body` is the number by which the runtime finds its code.
pub struct TaskData {
    pub name: String,
    pub parameters: Vec<String>,
    pub required_capabilities: Vec<(String, Option<String>)>,
    pub body: u64,
}

/// A value of the language.
pub struct SynValue {
    pub data: SynData,
    /// The text that the runtime prints for the value.
    pub shown: String,
}

/// What a value is made of.
pub enum SynData {
    Nothing,
    Bool(bool),
    Number(Number),
    Text(String),
    List(Vec<SynValue>),
    /// Keys with their values, in the order of insertion, no key twice.
    Mapping(Vec<(String, SynValue)>),
    Task(TaskData),
    /// A builtin, by its name.
    Builtin(String),
    Server(Box<ServerValue>),
}

/// The values that have a meaning of their own to the server.
pub enum ServerValue {
    /// A response to be written as it is.
    Raw { body: String, content_type: String, status: i64 },
    /// A value with an explicit status.
    Envelope { status: i64, value: SynValue },
    /// A node of a content tree: its fields by name, no name twice.
    Node(Vec<(String, SynValue)>),
    /// A content tree to be rendered in the format that the client asks for.
    Content(SynValue),
    /// A collection that is fetched page by page.
    Paged(Paged),
}

/// A collection that is fetched page by page. `fetch` is the number by which the runtime
/// finds the fetching function; `all` are the rows of an unlimited fetch, where such a
/// fetch was made and succeeded.
pub struct Paged {
    pub fetch: usize,
    pub all: Option<Vec<SynValue>>,
}

/// A value that the server makes.
pub enum NewValue {
    Nothing,
    Bool(bool),
    Int(i64),
    /// A floating-point number, by a decimal numeral that denotes it.
    Float(String),
    Text(String),
    /// A value that was handed over by the runtime.
    Given(SynValue),
    List(Vec<NewValue>),
    Mapping(Vec<(String, NewValue)>),
    Raw { body: String, content_type: String, status: i64 },
    Envelope { status: i64, value: Box<NewValue> },
    Node(Vec<(String, NewValue)>),
    Content(Box<NewValue>),
}

/// The mathematical content of a value that the server makes.
pub enum NewTree {
    Nothing,
    Bool(bool),
    Int(int),
    Float(Seq<char>),
    Text(Seq<char>),
    Given(SynValue),
    List(Seq<NewTree>),
    Mapping(Seq<(Seq<char>, NewTree)>),
    Raw { body: Seq<char>, content_type: Seq<char>, status: int },
    Envelope { status: int, value: Box<NewTree> },
    Node(Seq<(Seq<char>, NewTree)>),
    Content(Box<NewTree>),
}

/// The contents of the first `n` elements.
pub open spec fn list_trees(v: Seq<NewValue>, n: nat) -> Seq<NewTree>
    decreases v, n,
{
    if n == 0 || n > v.len() {
        seq![]
    } else {
        list_trees(v, (n - 1) as nat).push(v[n - 1].tree())
    }
}

/// The contents of the first `n` entries.
pub open spec fn map_trees(v: Seq<(String, NewValue)>, n: nat) -> Seq<(Seq<char>, NewTree)>
    decreases v, n,
{
    if n == 0 || n > v.len() {
        seq![]
    } else {
        map_trees(v, (n - 1) as nat).push((v[n - 1].0@, v[n - 1].1.tree()))
    }
}

impl NewValue {
    /// The content of this value.
    pub open spec fn tree(&self) -> NewTree
        decreases self, 0nat,
    {
        match *self {
            NewValue::Nothing => NewTree::Nothing,
            NewValue::Bool(b) => NewTree::Bool(b),
            NewValue::Int(i) => NewTree::Int(i as int),
            NewValue::Float(s) => NewTree::Float(s@),
            NewValue::Text(s) => NewTree::Text(s@),
            NewValue::Given(v) => NewTree::Given(v),
            NewValue::List(v) => NewTree::List(list_trees(v@, v@.len())),
            NewValue::Mapping(v) => NewTree::Mapping(map_trees(v@, v@.len())),
            NewValue::Raw { body, content_type, status } => NewTree::Raw {
                body: body@,
                content_type: content_type@,
                status: status as int,
            },
            NewValue::Envelope { status, value } => NewTree::Envelope {
                status: status as int,
                value: Box::new(value.tree()),
            },
            NewValue::Node(v) => NewTree::Node(map_trees(v@, v@.len())),
            NewValue::Content(v) => NewTree::Content(Box::new(v.tree())),
        }
    }
}

pub proof fn lemma_list_trees(v: Seq<NewValue>, n: nat)
    requires
        n <= v.len(),
    ensures
        list_trees(v, n).len() == n,
        forall|i: int| 0 <= i < n ==> #[trigger] list_trees(v, n)[i] == v[i].tree(),
    decreases n,
{
    if n > 0 {
        lemma_list_trees(v, (n - 1) as nat);
    }
}

pub proof fn lemma_map_trees(v: Seq<(String, NewValue)>, n: nat)
    requires
        n <= v.len(),
    ensures
        map_trees(v, n).len() == n,
        forall|i: int| 0 <= i < n ==> #[trigger] map_trees(v, n)[i] == (v[i].0@, v[i].1.tree()),
    decreases n,
{
    if n > 0 {
        lemma_map_trees(v, (n - 1) as nat);
    }
}

pub proof fn lemma_list_trees_push(before: Seq<NewValue>, after: Seq<NewValue>)
    requires
        after.len() == before.len() + 1,
        after.drop_last() =~= before,
    ensures
        list_trees(after, after.len()) == list_trees(before, before.len()).push(
            after.last().tree(),
        ),
{
    lemma_list_trees(before, before.len());
    lemma_list_trees(after, before.len());
    assert(list_trees(after, before.len()) == list_trees(before, before.len()));
}

pub proof fn lemma_map_trees_push(before: Seq<(String, NewValue)>, after: Seq<(String, NewValue)>)
    requires
        after.len() == before.len() + 1,
        after.drop_last() =~= before,
    ensures
        map_trees(after, after.len()) == map_trees(before, before.len()).push(
            (after.last().0@, after.last().1.tree()),
        ),
{
    lemma_map_trees(before, before.len());
    lemma_map_trees(after, before.len());
    assert(map_trees(after, before.len()) == map_trees(before, before.len()));
}

// ---------------------------------------------------------------------------
// Reading values
// ---------------------------------------------------------------------------

/// The integer part of a floating-point number, brought into the range of `i64`.
pub open spec fn float_i64(f: Float) -> i64 {
    match f {
        Float::Nan => 0,
        Float::Infinity => i64::MAX,
        Float::NegInfinity => i64::MIN,
        Float::Finite { whole, .. } => whole,
    }
}

/// A number as an `i64`: the integer part of a floating-point number, and zero for an
/// integer that is too large.
pub open spec fn number_i64(n: Number) -> i64 {
    match n {
        Number::Int(i) => i,
        Number::Float(f) => float_i64(f),
        Number::Big(digits) => match numeral::i64_of(digits@) {
            Some(i) => i,
            None => 0,
        },
    }
}

/// A value as an `i64`: zero where it is no number.
pub open spec fn value_i64(v: SynValue) -> i64 {
    match v.data {
        SynData::Number(n) => number_i64(n),
        _ => 0,
    }
}

/// A number as an `i64`.
pub fn number_to_i64(n: &Number) -> (r: i64)
    ensures
        r == number_i64(*n),
{
    match n {
        Number::Int(i) => *i,
        Number::Float(f) => match f {
            Float::Nan => 0,
            Float::Infinity => i64::MAX,
            Float::NegInfinity => i64::MIN,
            Float::Finite { whole, .. } => *whole,
        },
        Number::Big(digits) => {
            let cs = text::chars_of(digits.as_str());
            match numeral::parse_i64(cs.as_slice()) {
                Some(i) => i,
                None => 0,
            }
        },
    }
}

/// A value as an `i64`.
pub fn num_i64(v: &SynValue) -> (r: i64)
    ensures
        r == value_i64(*v),
{
    match &v.data {
        SynData::Number(n) => number_to_i64(n),
        _ => 0,
    }
}

impl SynValue {
    /// A text, which prints as itself.
    pub fn text(s: String) -> (v: SynValue)
        ensures
            v.data == SynData::Text(s),
            v.shown@ == s@,
    {
        let shown = s.as_str().to_owned();
        SynValue { data: SynData::Text(s), shown }
    }

    /// An integer, which prints as its decimal numeral.
    pub fn integer(i: i64) -> (v: SynValue)
        ensures
            v.data == SynData::Number(Number::Int(i)),
            v.shown@ == numeral::signed_decimal(i as int),
    {
        SynValue { data: SynData::Number(Number::Int(i)), shown: numeral::i64_to_string(i) }
    }

    /// Whether this is a node of a content tree.
    pub open spec fn node(&self) -> bool {
        self.data matches SynData::Server(s) && *s is Node
    }
}

/// The position of the first field with that name, or the number of fields.
pub open spec fn field_index(fields: Seq<(String, SynValue)>, key: Seq<char>) -> int
    decreases fields.len(),
{
    if fields.len() == 0 || fields[0].0@ == key {
        0
    } else {
        1 + field_index(fields.drop_first(), key)
    }
}

/// The value of the field with that name.
pub open spec fn field_in(fields: Seq<(String, SynValue)>, key: Seq<char>) -> Option<SynValue> {
    let i = field_index(fields, key);
    if 0 <= i < fields.len() {
        Some(fields[i].1)
    } else {
        None
    }
}

/// The field of a node. Only nodes have fields.
pub open spec fn field_of(v: SynValue, key: Seq<char>) -> Option<SynValue> {
    match v.data {
        SynData::Server(s) => match *s {
            ServerValue::Node(fields) => field_in(fields@, key),
            _ => None,
        },
        _ => None,
    }
}

/// The text of a field: nothing where it is absent or nothing.
pub open spec fn field_text(v: SynValue, key: Seq<char>) -> Seq<char> {
    match field_of(v, key) {
        Some(x) => if x.data is Nothing {
            seq![]
        } else {
            x.shown@
        },
        None => seq![],
    }
}

/// The integer in a field, or a default where there is no number.
pub open spec fn field_int(v: SynValue, key: Seq<char>, default: i64) -> i64 {
    match field_of(v, key) {
        Some(x) => if x.data is Number {
            value_i64(x)
        } else {
            default
        },
        None => default,
    }
}

/// The text that is stored for a key of a metadata map.
pub open spec fn meta_text(meta: SynValue, key: Seq<char>) -> Option<Seq<char>> {
    match meta.data {
        SynData::Mapping(entries) => match field_in(entries@, key) {
            Some(v) => Some(v.shown@),
            None => None,
        },
        _ => None,
    }
}

pub proof fn lemma_field_index(fields: Seq<(String, SynValue)>, key: Seq<char>, n: int)
    requires
        0 <= n <= fields.len(),
        forall|i: int| 0 <= i < n ==> (#[trigger] fields[i]).0@ != key,
        n < fields.len() ==> fields[n].0@ == key,
    ensures
        field_index(fields, key) == n,
    decreases fields.len(),
{
    if n > 0 {
        let rest = fields.drop_first();
        assert(fields[0].0@ != key);
        assert forall|i: int| 0 <= i < n - 1 implies (#[trigger] rest[i]).0@ != key by {
            assert(rest[i] == fields[i + 1]);
        }
        lemma_field_index(rest, key, n - 1);
    }
}

/// The value that is stored under a name.
pub fn find_field<'a>(fields: &'a Vec<(String, SynValue)>, key: &str) -> (r: Option<&'a SynValue>)
    ensures
        r is Some == field_in(fields@, key@) is Some,
        r matches Some(v) ==> field_in(fields@, key@) == Some(*v),
{
    for i in 0..fields.len()
        invariant
            forall|j: int| 0 <= j < i ==> (#[trigger] fields@[j]).0@ != key@,
    {
        if text::str_eq(fields[i].0.as_str(), key) {
            proof {
                lemma_field_index(fields@, key@, i as int);
            }
            return Some(&fields[i].1);
        }
    }
    proof {
        lemma_field_index(fields@, key@, fields@.len() as int);
    }
    None
}

/// Whether a value is a node of a content tree.
pub fn is_node(v: &SynValue) -> (r: bool)
    ensures
        r == v.node(),
{
    match &v.data {
        SynData::Server(s) => match &**s {
            ServerValue::Node(_) => true,
            _ => false,
        },
        _ => false,
    }
}

/// The field of a node.
pub fn node_field<'a>(v: &'a SynValue, key: &str) -> (r: Option<&'a SynValue>)
    ensures
        r is Some == field_of(*v, key@) is Some,
        r matches Some(x) ==> field_of(*v, key@) == Some(*x),
{
    match &v.data {
        SynData::Server(s) => match &**s {
            ServerValue::Node(fields) => find_field(fields, key),
            _ => None,
        },
        _ => None,
    }
}

/// The text of a field.
pub fn node_str(v: &SynValue, key: &str) -> (r: String)
    ensures
        r@ == field_text(*v, key@),
{
    match node_field(v, key) {
        None => String::new(),
        Some(x) => match &x.data {
            SynData::Nothing => String::new(),
            _ => x.shown.as_str().to_owned(),
        },
    }
}

/// The integer in a field.
pub fn node_int(v: &SynValue, key: &str, default: i64) -> (r: i64)
    ensures
        r == field_int(*v, key@, default),
{
    match node_field(v, key) {
        Some(x) => match &x.data {
            SynData::Number(n) => number_to_i64(n),
            _ => default,
        },
        None => default,
    }
}

/// The text that is stored for a key of a metadata map.
pub fn meta_get(meta: &SynValue, key: &str) -> (r: Option<String>)
    ensures
        r is Some == meta_text(*meta, key@) is Some,
        r matches Some(s) ==> meta_text(*meta, key@) == Some(s@),
{
    match &meta.data {
        SynData::Mapping(entries) => match find_field(entries, key) {
            Some(v) => Some(v.shown.as_str().to_owned()),
            None => None,
        },
        _ => None,
    }
}

/// A list in the reverse order.
pub fn reversed(v: Vec<SynValue>) -> (r: Vec<SynValue>)
    ensures
        r@ == v@.reverse(),
{
    let mut rest = v;
    let mut r: Vec<SynValue> = Vec::new();
    while rest.len() > 0
        invariant
            rest@ == v@.take(rest@.len() as int),
            rest@.len() + r@.len() == v@.len(),
            forall|i: int| 0 <= i < r@.len() ==> #[trigger] r@[i] == v@[v@.len() - 1 - i],
        decreases rest.len(),
    {
        if let Some(item) = rest.pop() {
            r.push(item);
        }
    }
    r
}

proof fn lemma_first_field(fields: Seq<(String, SynValue)>, key: Seq<char>)
    ensures
        0 <= field_index(fields, key) <= fields.len(),
        forall|i: int|
            0 <= i < field_index(fields, key) ==> (#[trigger] fields[i]).0@ != key,
        field_index(fields, key) < fields.len() ==> fields[field_index(fields, key)].0@ == key,
    decreases fields.len(),
{
    if fields.len() > 0 && fields[0].0@ != key {
        let rest = fields.drop_first();
        lemma_first_field(rest, key);
        assert forall|i: int| 0 <= i < field_index(fields, key) implies (#[trigger] fields[i]).0@
            != key by {
            if i > 0 {
                assert(rest[i - 1] == fields[i]);
            }
        }
    }
}

/// A field is the first one with its name; there is none exactly where none has that name.
pub proof fn law_first_field_counts(fields: Seq<(String, SynValue)>, key: Seq<char>, i: int)
    ensures
        0 <= i < fields.len() && fields[i].0@ == key && (forall|j: int|
            0 <= j < i ==> (#[trigger] fields[j]).0@ != key) ==> field_in(fields, key) == Some(
            fields[i].1,
        ),
        field_in(fields, key) is None <==> forall|j: int|
            0 <= j < fields.len() ==> (#[trigger] fields[j]).0@ != key,
{
    lemma_first_field(fields, key);
    let k = field_index(fields, key);
    if 0 <= i < fields.len() && fields[i].0@ == key && (forall|j: int|
        0 <= j < i ==> (#[trigger] fields[j]).0@ != key) {
        if k < i {
            assert(fields[k].0@ != key);
        }
        if i < k {
            assert(fields[i].0@ != key);
        }
    }
    if field_in(fields, key) is None {
        assert(k == fields.len());
    } else {
        assert(fields[k].0@ == key);
    }
}

/// A number as a machine integer: an integer is itself, a floating-point number its integer
/// part, a large integer itself where it fits, else zero. What is no number is zero.
pub proof fn law_numbers_as_integers(v: SynValue)
    ensures
        v.data matches SynData::Number(Number::Int(i)) ==> value_i64(v) == i,
        v.data matches SynData::Number(Number::Float(Float::Finite { repr, whole })) ==> value_i64(v)
            == whole,
        v.data == SynData::Number(Number::Float(Float::Nan)) ==> value_i64(v) == 0,
        v.data == SynData::Number(Number::Float(Float::Infinity)) ==> value_i64(v) == i64::MAX,
        v.data == SynData::Number(Number::Float(Float::NegInfinity)) ==> value_i64(v) == i64::MIN,
        v.data matches SynData::Number(Number::Big(d)) ==> (numeral::i64_of(d@) matches Some(i)
            ==> value_i64(v) == i) && (numeral::i64_of(d@) is None ==> value_i64(v) == 0),
        !(v.data is Number) ==> value_i64(v) == 0,
{
}

/// The content of a value that the server makes is that of its parts, one for one.
pub proof fn law_new_content_is_that_of_its_parts(v: NewValue)
    ensures
        match v {
            NewValue::Nothing => v.tree() is Nothing,
            NewValue::Bool(b) => v.tree() == NewTree::Bool(b),
            NewValue::Int(i) => v.tree() == NewTree::Int(i as int),
            NewValue::Float(s) => v.tree() == NewTree::Float(s@),
            NewValue::Text(s) => v.tree() == NewTree::Text(s@),
            NewValue::Given(w) => v.tree() == NewTree::Given(w),
            NewValue::List(x) => v.tree() matches NewTree::List(ts) && ts.len() == x@.len() && (
            forall|i: int| 0 <= i < ts.len() ==> #[trigger] ts[i] == x@[i].tree()),
            NewValue::Mapping(x) => v.tree() matches NewTree::Mapping(ts) && ts.len() == x@.len()
                && (forall|i: int|
                0 <= i < ts.len() ==> #[trigger] ts[i] == (x@[i].0@, x@[i].1.tree())),
            NewValue::Raw { body, content_type, status } => v.tree() == (NewTree::Raw {
                body: body@,
                content_type: content_type@,
                status: status as int,
            }),
            NewValue::Envelope { status, value } => v.tree() matches NewTree::Envelope {
                status: n,
                value: t,
            } && n == status && *t == value.tree(),
            NewValue::Node(x) => v.tree() matches NewTree::Node(ts) && ts.len() == x@.len() && (
            forall|i: int|
                0 <= i < ts.len() ==> #[trigger] ts[i] == (x@[i].0@, x@[i].1.tree())),
            NewValue::Content(x) => v.tree() matches NewTree::Content(t) && *t == x.tree(),
        },
{
    match v {
        NewValue::List(x) => {
            lemma_trees_of_list(x@, x@.len());
        },
        NewValue::Mapping(x) => {
            lemma_trees_of_map(x@, x@.len());
        },
        NewValue::Node(x) => {
            lemma_trees_of_map(x@, x@.len());
        },
        _ => {},
    }
}

proof fn lemma_trees_of_list(v: Seq<NewValue>, n: nat)
    requires
        n <= v.len(),
    ensures
        list_trees(v, n).len() == n,
        forall|i: int| 0 <= i < n ==> #[trigger] list_trees(v, n)[i] == v[i].tree(),
    decreases n,
{
    if n > 0 {
        lemma_trees_of_list(v, (n - 1) as nat);
    }
}

proof fn lemma_trees_of_map(v: Seq<(String, NewValue)>, n: nat)
    requires
        n <= v.len(),
    ensures
        map_trees(v, n).len() == n,
        forall|i: int| 0 <= i < n ==> #[trigger] map_trees(v, n)[i] == (v[i].0@, v[i].1.tree()),
    decreases n,
{
    if n > 0 {
        lemma_trees_of_map(v, (n - 1) as nat);
    }
}

/// The text of a field is what its value prints, and nothing where there is no field or it
/// holds nothing; its integer is that of a number, and the default for anything else. Only
/// nodes have fields.
pub proof fn law_fields_of_nodes(v: SynValue, x: SynValue, key: Seq<char>, default: i64, n: i64)
    ensures
        field_of(v, key) is None ==> field_text(v, key).len() == 0 && field_int(v, key, default)
            == default,
        field_of(v, key) == Some(x) ==> {
            &&& x.data is Nothing ==> field_text(v, key).len() == 0
            &&& !(x.data is Nothing) ==> field_text(v, key) == x.shown@
            &&& x.data == SynData::Number(Number::Int(n)) ==> field_int(v, key, default) == n
            &&& !(x.data is Number) ==> field_int(v, key, default) == default
        },
        !v.node() ==> field_of(v, key) is None,
        v.node() <==> (v.data is Server && *(v.data->Server_0) is Node),
        v.data matches SynData::Server(s) ==> (*s matches ServerValue::Node(fields) ==> field_of(
            v,
            key,
        ) == field_in(fields@, key)),
{
}

} // verus!
