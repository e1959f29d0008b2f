//! JSON values as plain data, read and written through `serde_json`.
use vstd::prelude::*;

use crate::text;

verus! {

/// The value of `serde_json`.
#[verifier::external_type_specification]
#[verifier::external_body]
pub struct ExJsonValue(serde_json::Value);

/// The number of `serde_json`.
#[verifier::external_type_specification]
#[verifier::external_body]
pub struct ExJsonNumber(serde_json::Number);

/// Whether `serde_json::Number::as_u64` and `as_i64` both give nothing: the number
/// is no integer.
pub uninterp spec fn is_fraction(n: serde_json::Number) -> bool;

/// A number that is no integer, carried through as `serde_json` keeps it.
#[derive(Debug, PartialEq)]
pub struct JsonFloat {
    number: serde_json::Number,
}

impl JsonFloat {
    /// The number.
    pub closed spec fn value(self) -> serde_json::Number {
        self.number
    }

    #[verifier::type_invariant]
    spec fn no_integer(self) -> bool {
        is_fraction(self.number)
    }
}

/// A JSON value. An object lists its members; where a key is listed twice, the
/// last entry counts.
#[derive(Debug, PartialEq)]
pub enum Json {
    Null,
    Bool(bool),
    Unsigned(u64),
    Signed(i64),
    Float(JsonFloat),
    Text(String),
    Array(Vec<Json>),
    Object(Vec<(String, Json)>),
}

/// What a JSON value means.
pub enum JsonTree {
    Null,
    Bool(bool),
    Unsigned(u64),
    Signed(i64),
    Float(serde_json::Number),
    Text(Seq<char>),
    Array(Seq<JsonTree>),
    Object(Map<Seq<char>, JsonTree>),
}

/// One level of a `serde_json` value.
pub enum JsonNode {
    Null,
    Bool(bool),
    Unsigned(u64),
    Signed(i64),
    Float(JsonFloat),
    Text(String),
    Array(Vec<serde_json::Value>),
    Object(Vec<(String, serde_json::Value)>),
}

/// What a `serde_json` value holds.
pub uninterp spec fn json_tree(v: serde_json::Value) -> JsonTree;

/// What `serde_json::from_str` makes of a text: the value, or the message of
/// the error.
pub uninterp spec fn json_parse(text: Seq<char>) -> Result<JsonTree, Seq<char>>;

/// The compact text that `serde_json` writes for a value.
pub uninterp spec fn json_text(tree: JsonTree) -> Seq<char>;

/// An integer that is not negative is unsigned.
pub open spec fn integer_tree(i: i64) -> JsonTree {
    if i >= 0 {
        JsonTree::Unsigned(i as u64)
    } else {
        JsonTree::Signed(i)
    }
}

/// The members of an object of `serde_json` values.
pub open spec fn value_members(e: Seq<(String, serde_json::Value)>) -> Map<Seq<char>, JsonTree>
    decreases e.len(),
{
    if e.len() == 0 {
        Map::empty()
    } else {
        value_members(e.drop_last()).insert(e.last().0@, json_tree(e.last().1))
    }
}

pub open spec fn node_tree(n: JsonNode) -> JsonTree {
    match n {
        JsonNode::Null => JsonTree::Null,
        JsonNode::Bool(b) => JsonTree::Bool(b),
        JsonNode::Unsigned(u) => JsonTree::Unsigned(u),
        JsonNode::Signed(i) => integer_tree(i),
        JsonNode::Float(f) => JsonTree::Float(f.value()),
        JsonNode::Text(s) => JsonTree::Text(s@),
        JsonNode::Array(a) => JsonTree::Array(
            Seq::new(a@.len(), |i: int| json_tree(a@[i])),
        ),
        JsonNode::Object(m) => JsonTree::Object(value_members(m@)),
    }
}

/// Whether no key comes twice.
pub open spec fn distinct_keys(e: Seq<(String, serde_json::Value)>) -> bool {
    forall|i: int, j: int| 0 <= i < j < e.len() ==> #[trigger] e[i].0@ != #[trigger] e[j].0@
}

/// `serde_json::from_str`, for any value: the value that the text holds, or
/// the message of the error. Nothing is said of which texts are JSON.
#[verifier::external_body]
fn parse_value(text: &str) -> (r: Result<serde_json::Value, String>)
    ensures
        match r {
            Ok(v) => json_parse(text@) == Ok::<JsonTree, Seq<char>>(json_tree(v)),
            Err(m) => json_parse(text@) == Err::<JsonTree, Seq<char>>(m@),
        },
{
    serde_json::from_str(text).map_err(|e| e.to_string())
}

/// Takes a `serde_json::Value` apart, one variant for one; `as_u64` and
/// `as_i64` of its number tell the kinds of numbers apart, so that what neither
/// gives is no integer, and no key of an object comes twice.
#[verifier::external_body]
fn open_value(v: serde_json::Value) -> (r: JsonNode)
    ensures
        node_tree(r) == json_tree(v),
        r matches JsonNode::Object(m) ==> distinct_keys(m@),
        r matches JsonNode::Float(f) ==> is_fraction(f.value()),
{
    match v {
        serde_json::Value::Null => JsonNode::Null,
        serde_json::Value::Bool(b) => JsonNode::Bool(b),
        serde_json::Value::Number(n) => match (n.as_u64(), n.as_i64()) {
            (Some(u), _) => JsonNode::Unsigned(u),
            (None, Some(i)) => JsonNode::Signed(i),
            (None, None) => JsonNode::Float(JsonFloat { number: n }),
        },
        serde_json::Value::String(s) => JsonNode::Text(s),
        serde_json::Value::Array(a) => JsonNode::Array(a),
        serde_json::Value::Object(m) => JsonNode::Object(m.into_iter().collect()),
    }
}

/// Makes a `serde_json::Value`, one variant for one, where a float is no integer;
/// its object keeps the last entry of each key.
#[verifier::external_body]
fn close_value(n: JsonNode) -> (r: serde_json::Value)
    requires
        n matches JsonNode::Float(f) ==> is_fraction(f.value()),
    ensures
        json_tree(r) == node_tree(n),
{
    match n {
        JsonNode::Null => serde_json::Value::Null,
        JsonNode::Bool(b) => serde_json::Value::Bool(b),
        JsonNode::Unsigned(u) => serde_json::Value::from(u),
        JsonNode::Signed(i) => serde_json::Value::from(i),
        JsonNode::Float(f) => serde_json::Value::Number(f.number),
        JsonNode::Text(s) => serde_json::Value::String(s),
        JsonNode::Array(a) => serde_json::Value::Array(a),
        JsonNode::Object(m) => serde_json::Value::Object(m.into_iter().collect()),
    }
}

/// `serde_json::Value::to_string`: a function of what the value holds.
#[verifier::external_body]
fn value_text(v: &serde_json::Value) -> (r: String)
    ensures
        r@ == json_text(json_tree(*v)),
{
    v.to_string()
}

/// The members of an object; the last entry of a key counts.
pub open spec fn members(e: Seq<(String, Json)>) -> Map<Seq<char>, JsonTree>
    decreases e,
{
    if e.len() == 0 {
        Map::empty()
    } else {
        members(e.drop_last()).insert(e.last().0@, e.last().1.tree())
    }
}

impl Json {
    /// What the value means.
    pub open spec fn tree(self) -> JsonTree
        decreases self,
    {
        match self {
            Json::Null => JsonTree::Null,
            Json::Bool(b) => JsonTree::Bool(b),
            Json::Unsigned(u) => JsonTree::Unsigned(u),
            Json::Signed(i) => integer_tree(i),
            Json::Float(f) => JsonTree::Float(f.value()),
            Json::Text(s) => JsonTree::Text(s@),
            Json::Array(a) => JsonTree::Array(
                Seq::new(
                    a@.len(),
                    |i: int|
                        if 0 <= i < a@.len() {
                            a@[i].tree()
                        } else {
                            JsonTree::Null
                        },
                ),
            ),
            Json::Object(m) => JsonTree::Object(members(m@)),
        }
    }
}

/// The trees of a sequence of values.
pub open spec fn trees(a: Seq<Json>) -> Seq<JsonTree> {
    Seq::new(a.len(), |i: int| a[i].tree())
}

proof fn lemma_array_tree(a: Vec<Json>)
    ensures
        Json::Array(a).tree() == JsonTree::Array(trees(a@)),
{
    assert(Json::Array(a).tree()->Array_0 =~= trees(a@));
}

/// The plain form of a `serde_json` value.
fn from_value(v: serde_json::Value) -> (r: Json)
    ensures
        r.tree() == json_tree(v),
    decreases json_tree(v),
{
    match open_value(v) {
        JsonNode::Null => Json::Null,
        JsonNode::Bool(b) => Json::Bool(b),
        JsonNode::Unsigned(u) => Json::Unsigned(u),
        JsonNode::Signed(i) => Json::Signed(i),
        JsonNode::Float(f) => Json::Float(f),
        JsonNode::Text(s) => Json::Text(s),
        JsonNode::Array(items) => {
            let mut rest = items;
            let ghost all = rest@;
            let mut back: Vec<Json> = Vec::new();
            while rest.len() > 0
                invariant
                    rest@.len() + back@.len() == all.len(),
                    rest@ == all.take(rest@.len() as int),
                    json_tree(v) == JsonTree::Array(
                        Seq::new(all.len(), |i: int| json_tree(all[i])),
                    ),
                    forall|k: int|
                        0 <= k < back@.len() ==> (#[trigger] back@[k]).tree() == json_tree(
                            all[all.len() - 1 - k],
                        ),
                decreases rest@.len(),
            {
                let ghost n = rest@.len() - 1;
                match rest.pop() {
                    Some(item) => {
                        proof {
                            assert(item == all[n]);
                            let seq = json_tree(v)->Array_0;
                            assert(seq[n] == json_tree(item));
                            assert(decreases_to!(json_tree(v) => seq));
                            assert(decreases_to!(seq => seq[n]));
                            assert(rest@ =~= all.take(n));
                        }
                        back.push(from_value(item));
                    },
                    None => {},
                }
            }
            let out = reversed(back);
            proof {
                lemma_array_tree(out);
                assert(trees(out@) =~= Seq::new(all.len(), |i: int| json_tree(all[i])));
            }
            Json::Array(out)
        },
        JsonNode::Object(entries) => {
            let mut rest = entries;
            let ghost all = rest@;
            let mut back: Vec<(String, Json)> = Vec::new();
            while rest.len() > 0
                invariant
                    rest@.len() + back@.len() == all.len(),
                    rest@ == all.take(rest@.len() as int),
                    json_tree(v) == JsonTree::Object(value_members(all)),
                    distinct_keys(all),
                    forall|k: int|
                        0 <= k < back@.len() ==> (#[trigger] back@[k]).1.tree() == json_tree(
                            all[all.len() - 1 - k].1,
                        ) && back@[k].0@ == all[all.len() - 1 - k].0@,
                decreases rest@.len(),
            {
                let ghost n = rest@.len() - 1;
                match rest.pop() {
                    Some(item) => {
                        proof {
                            assert(item == all[n]);
                            assert(rest@ =~= all.take(n));
                        }
                        let (key, value) = item;
                        proof {
                            lemma_value_member(all, n);
                            let map = json_tree(v)->Object_0;
                            assert(map[key@] == json_tree(value));
                            assert(decreases_to!(json_tree(v) => map));
                            assert(decreases_to!(map => map[key@]));
                        }
                        back.push((key, from_value(value)));
                    },
                    None => {},
                }
            }
            let out = reversed(back);
            proof {
                lemma_members_agree(out@, all);
            }
            Json::Object(out)
        },
    }
}

proof fn lemma_value_member(e: Seq<(String, serde_json::Value)>, n: int)
    requires
        distinct_keys(e),
        0 <= n < e.len(),
    ensures
        value_members(e).dom().finite(),
        value_members(e).contains_key(e[n].0@),
        value_members(e)[e[n].0@] == json_tree(e[n].1),
    decreases e.len(),
{
    lemma_value_members_finite(e);
    if n < e.len() - 1 {
        lemma_value_member(e.drop_last(), n);
        assert(e.drop_last()[n] == e[n]);
        assert(e[n].0@ != e[e.len() - 1].0@);
    }
}

proof fn lemma_value_members_finite(e: Seq<(String, serde_json::Value)>)
    ensures
        value_members(e).dom().finite(),
    decreases e.len(),
{
    if e.len() > 0 {
        lemma_value_members_finite(e.drop_last());
    }
}

/// The elements in the opposite order.
fn reversed<T>(v: Vec<T>) -> (r: Vec<T>)
    ensures
        r@.len() == v@.len(),
        forall|k: int| 0 <= k < r@.len() ==> #[trigger] r@[k] == v@[v@.len() - 1 - k],
{
    let mut rest = v;
    let mut out: Vec<T> = Vec::new();
    while rest.len() > 0
        invariant
            rest@.len() + out@.len() == v@.len(),
            rest@ == v@.take(rest@.len() as int),
            forall|k: int| 0 <= k < out@.len() ==> #[trigger] out@[k] == v@[v@.len() - 1 - k],
        decreases rest@.len(),
    {
        let ghost n = rest@.len() - 1;
        match rest.pop() {
            Some(x) => {
                proof {
                    assert(rest@ =~= v@.take(n));
                }
                out.push(x);
            },
            None => {},
        }
    }
    out
}

proof fn lemma_members_agree(e: Seq<(String, Json)>, f: Seq<(String, serde_json::Value)>)
    requires
        e.len() == f.len(),
        forall|k: int|
            0 <= k < e.len() ==> (#[trigger] e[k]).0@ == f[k].0@ && e[k].1.tree() == json_tree(
                f[k].1,
            ),
    ensures
        members(e) == value_members(f),
    decreases e.len(),
{
    if e.len() > 0 {
        assert(e.last() == e[e.len() - 1]);
        lemma_members_agree(e.drop_last(), f.drop_last());
    }
}

/// The `serde_json` form of a value.
fn to_value(j: Json) -> (r: serde_json::Value)
    ensures
        json_tree(r) == j.tree(),
    decreases j,
{
    match j {
        Json::Null => close_value(JsonNode::Null),
        Json::Bool(b) => close_value(JsonNode::Bool(b)),
        Json::Unsigned(u) => close_value(JsonNode::Unsigned(u)),
        Json::Signed(i) => close_value(JsonNode::Signed(i)),
        Json::Float(f) => {
            proof {
                use_type_invariant(&f);
            }
            close_value(JsonNode::Float(f))
        },
        Json::Text(s) => close_value(JsonNode::Text(s)),
        Json::Array(items) => {
            let mut rest = items;
            let mut back: Vec<serde_json::Value> = Vec::new();
            while rest.len() > 0
                invariant
                    decreases_to!(j => items@),
                    rest@.len() + back@.len() == items@.len(),
                    rest@ == items@.take(rest@.len() as int),
                    forall|k: int|
                        0 <= k < back@.len() ==> json_tree(#[trigger] back@[k])
                            == items@[items@.len() - 1 - k].tree(),
                decreases rest@.len(),
            {
                let ghost n = rest@.len() - 1;
                match rest.pop() {
                    Some(item) => {
                        proof {
                            assert(item == items@[n]);
                            assert(decreases_to!(items@ => items@[n]));
                            assert(rest@ =~= items@.take(n));
                        }
                        back.push(to_value(item));
                    },
                    None => {},
                }
            }
            let out = reversed(back);
            proof {
                lemma_array_tree(items);
                assert(Seq::new(out@.len(), |i: int| json_tree(out@[i])) =~= trees(items@));
            }
            close_value(JsonNode::Array(out))
        },
        Json::Object(entries) => {
            let mut rest = entries;
            let mut back: Vec<(String, serde_json::Value)> = Vec::new();
            while rest.len() > 0
                invariant
                    decreases_to!(j => entries@),
                    rest@.len() + back@.len() == entries@.len(),
                    rest@ == entries@.take(rest@.len() as int),
                    forall|k: int|
                        0 <= k < back@.len() ==> json_tree((#[trigger] back@[k]).1)
                            == entries@[entries@.len() - 1 - k].1.tree() && back@[k].0@
                            == entries@[entries@.len() - 1 - k].0@,
                decreases rest@.len(),
            {
                let ghost n = rest@.len() - 1;
                match rest.pop() {
                    Some(item) => {
                        proof {
                            assert(item == entries@[n]);
                            assert(decreases_to!(entries@ => entries@[n]));
                            assert(decreases_to!(entries@[n] => entries@[n].1));
                            assert(rest@ =~= entries@.take(n));
                        }
                        let (key, value) = item;
                        back.push((key, to_value(value)));
                    },
                    None => {},
                }
            }
            let out = reversed(back);
            proof {
                lemma_members_agree(entries@, out@);
            }
            close_value(JsonNode::Object(out))
        },
    }
}

/// The value of member `key`; nothing where the value is no object or lacks it.
pub open spec fn member(t: JsonTree, key: Seq<char>) -> Option<JsonTree> {
    match t {
        JsonTree::Object(m) => if m.contains_key(key) {
            Some(m[key])
        } else {
            None
        },
        _ => None,
    }
}

/// The member of a value that may itself be missing.
pub open spec fn member_of(t: Option<JsonTree>, key: Seq<char>) -> Option<JsonTree> {
    match t {
        Some(v) => member(v, key),
        None => None,
    }
}

/// The text of a value that is a string.
pub open spec fn text_of_tree(t: Option<JsonTree>) -> Option<Seq<char>> {
    match t {
        Some(JsonTree::Text(s)) => Some(s),
        _ => None,
    }
}

/// The value of an unsigned integer.
pub open spec fn unsigned_of_tree(t: Option<JsonTree>) -> Option<u64> {
    match t {
        Some(JsonTree::Unsigned(u)) => Some(u),
        _ => None,
    }
}

/// The items of an array.
pub open spec fn items_of_tree(t: Option<JsonTree>) -> Option<Seq<JsonTree>> {
    match t {
        Some(JsonTree::Array(a)) => Some(a),
        _ => None,
    }
}

/// What a value that may be missing means.
pub open spec fn opt_tree(j: Option<&Json>) -> Option<JsonTree> {
    match j {
        Some(v) => Some(v.tree()),
        None => None,
    }
}

pub proof fn lemma_member(e: Seq<(String, Json)>, key: Seq<char>, n: int)
    requires
        0 <= n <= e.len(),
        forall|k: int| n <= k < e.len() ==> (#[trigger] e[k]).0@ != key,
    ensures
        members(e).contains_key(key) <==> members(e.take(n)).contains_key(key),
        members(e).contains_key(key) ==> members(e)[key] == members(e.take(n))[key],
    decreases e.len(),
{
    if n == e.len() {
        assert(e.take(n) =~= e);
    } else {
        assert(e.last() == e[e.len() - 1]);
        assert forall|k: int| n <= k < e.drop_last().len() implies (
        #[trigger] e.drop_last()[k]).0@ != key by {
            assert(e.drop_last()[k] == e[k]);
        }
        lemma_member(e.drop_last(), key, n);
        assert(e.drop_last().take(n) =~= e.take(n));
    }
}

/// The value of member `key` of a value that may be missing.
pub fn get<'a>(j: Option<&'a Json>, key: &str) -> (r: Option<&'a Json>)
    ensures
        opt_tree(r) == member_of(opt_tree(j), key@),
{
    match j {
        Some(Json::Object(entries)) => {
            let mut n: usize = entries.len();
            while n > 0
                invariant
                    n <= entries.len(),
                    forall|k: int| n <= k < entries@.len() ==> (#[trigger] entries@[k]).0@ != key@,
                    opt_tree(j) == Some(JsonTree::Object(members(entries@))),
                decreases n,
            {
                if text::same_text(entries[n - 1].0.as_str(), key) {
                    proof {
                        lemma_member(entries@, key@, n as int);
                        let head = entries@.take(n as int);
                        assert(head.last() == entries@[n - 1]);
                    }
                    return Some(&entries[n - 1].1);
                }
                n -= 1;
            }
            proof {
                lemma_member(entries@, key@, 0);
                assert(entries@.take(0) =~= Seq::<(String, Json)>::empty());
                assert(!members(entries@).contains_key(key@));
            }
            None
        },
        _ => None,
    }
}

/// The text of a value that is a string.
pub fn as_text<'a>(j: Option<&'a Json>) -> (r: Option<&'a str>)
    ensures
        text::opt_view(r) == text_of_tree(opt_tree(j)),
{
    match j {
        Some(Json::Text(s)) => Some(s.as_str()),
        _ => None,
    }
}

/// The value of an unsigned integer.
pub fn as_unsigned(j: Option<&Json>) -> (r: Option<u64>)
    ensures
        r == unsigned_of_tree(opt_tree(j)),
{
    match j {
        Some(Json::Unsigned(u)) => Some(*u),
        Some(Json::Signed(i)) => if *i >= 0 {
            Some(*i as u64)
        } else {
            None
        },
        _ => None,
    }
}

/// The items of an array.
pub fn as_items<'a>(j: Option<&'a Json>) -> (r: Option<&'a Vec<Json>>)
    ensures
        match r {
            Some(a) => items_of_tree(opt_tree(j)) == Some(trees(a@)),
            None => items_of_tree(opt_tree(j)) is None,
        },
{
    match j {
        Some(Json::Array(a)) => {
            proof {
                lemma_array_tree(*a);
            }
            Some(a)
        },
        _ => None,
    }
}

/// The JSON value that a text holds, or the message of the parser.
pub fn parse_json(text: &str) -> (r: Result<Json, String>)
    ensures
        match r {
            Ok(j) => json_parse(text@) == Ok::<JsonTree, Seq<char>>(j.tree()),
            Err(m) => json_parse(text@) == Err::<JsonTree, Seq<char>>(m@),
        },
{
    match parse_value(text) {
        Ok(v) => Ok(from_value(v)),
        Err(m) => Err(m),
    }
}

impl Json {
    /// The compact JSON text of the value.
    pub fn render(self) -> (r: String)
        ensures
            r@ == json_text(self.tree()),
    {
        let v = to_value(self);
        value_text(&v)
    }
}

/// A string value.
pub fn text_value(s: &str) -> (r: Json)
    ensures
        r.tree() == JsonTree::Text(s@),
{
    Json::Text(s.to_string())
}

/// An object with one member.
pub fn object1(key: &str, value: Json) -> (r: Json)
    ensures
        r.tree() == JsonTree::Object(Map::<Seq<char>, JsonTree>::empty().insert(key@, value.tree())),
{
    let mut e: Vec<(String, Json)> = Vec::new();
    push_member(&mut e, key, value);
    proof {
        assert(members(Seq::<(String, Json)>::empty()) =~= Map::<Seq<char>, JsonTree>::empty());
    }
    Json::Object(e)
}

/// Sets member `key` of the object with these entries.
pub fn push_member(e: &mut Vec<(String, Json)>, key: &str, value: Json)
    ensures
        members(final(e)@) == members(old(e)@).insert(key@, value.tree()),
{
    let ghost before = e@;
    let k = key.to_string();
    e.push((k, value));
    proof {
        assert(e@.drop_last() =~= before);
    }
}

/// The members of an object: one more entry sets its key and leaves the others.
pub proof fn law_members(e: Seq<(String, Json)>, key: String, value: Json)
    ensures
        members(Seq::<(String, Json)>::empty()) == Map::<Seq<char>, JsonTree>::empty(),
        members(e.push((key, value))) == members(e).insert(key@, value.tree()),
{
    assert(e.push((key, value)).drop_last() =~= e);
}

/// A member is found in an object that has it, and nowhere else; a text, an unsigned
/// integer and an array are found in a value of that kind, and in no other.
pub proof fn law_lookup(t: JsonTree, m: Map<Seq<char>, JsonTree>, key: Seq<char>)
    ensures
        m.contains_key(key) ==> member(JsonTree::Object(m), key) == Some(m[key]),
        !m.contains_key(key) ==> member(JsonTree::Object(m), key) is None,
        !(t is Object) ==> member(t, key) is None,
        member_of(Some(t), key) == member(t, key),
        member_of(None, key) is None,
        t is Text ==> text_of_tree(Some(t)) == Some(t->Text_0),
        text_of_tree(None) is None,
        t is Unsigned ==> unsigned_of_tree(Some(t)) == Some(t->Unsigned_0),
        unsigned_of_tree(None) is None,
        t is Array ==> items_of_tree(Some(t)) == Some(t->Array_0),
        items_of_tree(None) is None,
        text_of_tree(Some(t)) is Some ==> t is Text,
        unsigned_of_tree(Some(t)) is Some ==> t is Unsigned,
        items_of_tree(Some(t)) is Some ==> t is Array,
{
}

/// What a value means: an integer that is not negative is unsigned, however it is kept,
/// and an array and an object mean their parts.
pub proof fn law_trees(i: i64, u: u64, b: bool, s: String, a: Vec<Json>, m: Vec<(String, Json)>)
    ensures
        i >= 0 ==> Json::Signed(i).tree() == Json::Unsigned(i as u64).tree(),
        i < 0 ==> Json::Signed(i).tree() == JsonTree::Signed(i),
        Json::Unsigned(u).tree() == JsonTree::Unsigned(u),
        Json::Bool(b).tree() == JsonTree::Bool(b),
        Json::Null.tree() == JsonTree::Null,
        Json::Text(s).tree() == JsonTree::Text(s@),
        Json::Array(a).tree() == JsonTree::Array(trees(a@)),
        Json::Object(m).tree() == JsonTree::Object(members(m@)),
{
    lemma_array_tree(a);
}

} // verus!
