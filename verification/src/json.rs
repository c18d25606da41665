//! JSON documents: the requests that come in and the replies that go out.
//!
//! Parsing and printing are serde_json's. A document that comes in is copied into a
//! [`Json`] and a reply is built as a [`Doc`], so that the logic works on plain values.

use vstd::prelude::*;

use crate::number;
use crate::number::write_decimal;
use crate::strmap;
use crate::strmap::StrMap;
use crate::text::str_eq;

verus! {

/// What a JSON document denotes. A number that is not whole, or out of the range of
/// `i64` and `u64` both, is known by the text that it prints as.
pub enum JsonView {
    Null,
    Bool(bool),
    Int(int),
    Real(Seq<char>),
    Str(Seq<char>),
    Array(Seq<JsonView>),
    Object(Map<Seq<char>, JsonView>),
}

// ---------------------------------------------------------------------------
// What serde_json does
// ---------------------------------------------------------------------------

/// `serde_json::Value`, a JSON document.
#[verifier::external_type_specification]
#[verifier::external_body]
pub struct ExValue(serde_json::Value);

/// The contents of a `serde_json::Value`: its tree of plain values.
pub uninterp spec fn json_tree(v: serde_json::Value) -> JsonView;

/// What `serde_json::from_slice` reads out of bytes: a document, or the message of the error.
pub uninterp spec fn json_parsed(bytes: Seq<u8>) -> Result<JsonView, Seq<char>>;

/// What a document prints as.
pub uninterp spec fn json_text(tree: JsonView) -> Seq<char>;

/// The trees of a run of values.
pub open spec fn value_trees(s: Seq<serde_json::Value>) -> Seq<JsonView> {
    Seq::new(s.len(), |i: int| json_tree(s[i]))
}

/// The members that a run of keys and values makes; of two equal keys the later counts.
pub open spec fn value_members(s: Seq<(String, serde_json::Value)>) -> Map<Seq<char>, JsonView>
    decreases s.len(),
{
    if s.len() == 0 {
        Map::empty()
    } else {
        value_members(s.drop_last()).insert(s.last().0@, json_tree(s.last().1))
    }
}

/// One level of a document that was read.
pub enum Node<'a> {
    Null,
    Bool(bool),
    Number,
    Str(&'a str),
    Array(&'a Vec<serde_json::Value>),
    Object(Vec<(&'a String, &'a serde_json::Value)>),
}

/// One level of a document that is to be built.
pub enum Shape {
    Null,
    Bool(bool),
    Unsigned(u64),
    Signed(i64),
    Str(String),
    Array(Vec<serde_json::Value>),
    Object(Vec<(String, serde_json::Value)>),
}

/// `serde_json::from_slice` into a `Value`: the document that the bytes hold, or the
/// error as it prints. What it is, is only named.
#[verifier::external_body]
fn parse_value(bytes: &[u8]) -> (r: Result<serde_json::Value, String>)
    ensures
        match r {
            Ok(v) => json_parsed(bytes@) == Ok::<JsonView, Seq<char>>(json_tree(v)),
            Err(e) => json_parsed(bytes@) == Err::<JsonView, Seq<char>>(e@),
        },
{
    serde_json::from_slice::<serde_json::Value>(bytes).map_err(|e| e.to_string())
}

/// The variants of `serde_json::Value` told apart, with `serde_json::Map::iter` for an
/// object, whose keys are distinct.
#[verifier::external_body]
fn node_of<'a>(v: &'a serde_json::Value) -> (r: Node<'a>)
    ensures
        match r {
            Node::Null => json_tree(*v) == JsonView::Null,
            Node::Bool(b) => json_tree(*v) == JsonView::Bool(b),
            Node::Number => json_tree(*v) is Int || json_tree(*v) is Real,
            Node::Str(s) => json_tree(*v) == JsonView::Str(s@),
            Node::Array(items) => json_tree(*v) == JsonView::Array(value_trees(items@)),
            Node::Object(members) => {
                &&& json_tree(*v) is Object
                &&& json_tree(*v)->Object_0.dom().finite()
                &&& forall|i: int|
                    0 <= i < members@.len() ==> json_tree(*v)->Object_0.contains_pair(
                        (#[trigger] members@[i]).0@,
                        json_tree(*members@[i].1),
                    )
                &&& forall|k: Seq<char>| #[trigger]
                    json_tree(*v)->Object_0.contains_key(k) ==> exists|i: int|
                        0 <= i < members@.len() && (#[trigger] members@[i]).0@ == k
            },
        },
{
    match v {
        serde_json::Value::Null => Node::Null,
        serde_json::Value::Bool(b) => Node::Bool(*b),
        serde_json::Value::Number(_) => Node::Number,
        serde_json::Value::String(s) => Node::Str(s),
        serde_json::Value::Array(items) => Node::Array(items),
        serde_json::Value::Object(members) => Node::Object(members.iter().collect()),
    }
}

/// `serde_json::Value::as_u64`: a whole number that is not negative, which is always in
/// the range of `u64`; nothing for any other value.
pub assume_specification[ serde_json::Value::as_u64 ](v: &serde_json::Value) -> (r: Option<u64>)
    ensures
        match r {
            Some(n) => json_tree(*v) == JsonView::Int(n as int),
            None => !(json_tree(*v) matches JsonView::Int(n) && n >= 0),
        },
;

/// `serde_json::Value::as_i64`: a whole number up to the largest `i64`, which is never
/// below the smallest one; nothing for any other value.
pub assume_specification[ serde_json::Value::as_i64 ](v: &serde_json::Value) -> (r: Option<i64>)
    ensures
        match r {
            Some(n) => json_tree(*v) == JsonView::Int(n as int),
            None => !(json_tree(*v) matches JsonView::Int(n) && n <= i64::MAX),
        },
;

/// `serde_json::Value::to_string`: the document in compact form, which is only named. A
/// number that is not whole prints as the text that it is known by.
#[verifier::external_body]
fn print_value(v: &serde_json::Value) -> (r: String)
    ensures
        r@ == json_text(json_tree(*v)),
        json_tree(*v) matches JsonView::Real(t) ==> r@ == t,
{
    v.to_string()
}

/// The variants of `serde_json::Value` built, numbers through `serde_json::Value::from`.
/// Of two equal keys of an object the later one counts.
#[verifier::external_body]
fn value_of(shape: Shape) -> (r: serde_json::Value)
    ensures
        match shape {
            Shape::Null => json_tree(r) == JsonView::Null,
            Shape::Bool(b) => json_tree(r) == JsonView::Bool(b),
            Shape::Unsigned(n) => json_tree(r) == JsonView::Int(n as int),
            Shape::Signed(n) => json_tree(r) == JsonView::Int(n as int),
            Shape::Str(s) => json_tree(r) == JsonView::Str(s@),
            Shape::Array(items) => json_tree(r) == JsonView::Array(value_trees(items@)),
            Shape::Object(members) => json_tree(r) == JsonView::Object(value_members(members@)),
        },
{
    match shape {
        Shape::Null => serde_json::Value::Null,
        Shape::Bool(b) => serde_json::Value::Bool(b),
        Shape::Unsigned(n) => serde_json::Value::from(n),
        Shape::Signed(n) => serde_json::Value::from(n),
        Shape::Str(s) => serde_json::Value::String(s),
        Shape::Array(items) => serde_json::Value::Array(items),
        Shape::Object(members) => serde_json::Value::Object(members.into_iter().collect()),
    }
}

// ---------------------------------------------------------------------------
// Documents that came in
// ---------------------------------------------------------------------------

/// A JSON document that came in.
pub enum Json {
    Null,
    Bool(bool),
    /// A whole number that is not negative.
    Unsigned(u64),
    /// A whole number that is negative.
    Negative(i64),
    /// Any other number, as it prints.
    Real(String),
    Str(String),
    Array(Vec<Json>),
    /// The members; of two equal keys the later one counts.
    Object(Vec<(String, Json)>),
}

impl Json {
    /// What the document denotes.
    pub open spec fn tree(&self) -> JsonView
        decreases self,
    {
        match self {
            Json::Null => JsonView::Null,
            Json::Bool(b) => JsonView::Bool(*b),
            Json::Unsigned(n) => JsonView::Int(*n as int),
            Json::Negative(n) => JsonView::Int(*n as int),
            Json::Real(t) => JsonView::Real(t@),
            Json::Str(s) => JsonView::Str(s@),
            Json::Array(items) => JsonView::Array(
                Seq::new(
                    items@.len(),
                    |i: int|
                        if 0 <= i < items@.len() {
                            items@[i].tree()
                        } else {
                            JsonView::Null
                        },
                ),
            ),
            Json::Object(members) => JsonView::Object(json_map(members@)),
        }
    }
}

/// The map that a run of members makes; of two equal keys the later one counts.
pub open spec fn json_map(v: Seq<(String, Json)>) -> Map<Seq<char>, JsonView>
    decreases v,
{
    if v.len() == 0 {
        Map::empty()
    } else {
        json_map(v.drop_last()).insert(v.last().0@, v.last().1.tree())
    }
}

/// The map that a run of keys and values makes; of two equal keys the later one counts.
pub open spec fn folded(s: Seq<(Seq<char>, JsonView)>) -> Map<Seq<char>, JsonView>
    decreases s.len(),
{
    if s.len() == 0 {
        Map::empty()
    } else {
        folded(s.drop_last()).insert(s.last().0, s.last().1)
    }
}

/// The keys of a folded run are the keys in it, and a value under a key stands in it
/// with that key.
pub proof fn lemma_folded(s: Seq<(Seq<char>, JsonView)>, key: Seq<char>)
    ensures
        folded(s).contains_key(key) <==> exists|i: int|
            0 <= i < s.len() && (#[trigger] s[i]).0 == key,
        folded(s).contains_key(key) ==> exists|i: int|
            0 <= i < s.len() && #[trigger] s[i] == (key, folded(s)[key]),
    decreases s.len(),
{
    if s.len() > 0 {
        let t = s.drop_last();
        lemma_folded(t, key);
        assert(s.last() == s[s.len() - 1]);
        if key == s.last().0 {
            assert(s[s.len() - 1] == (key, folded(s)[key]));
        } else {
            if folded(t).contains_key(key) {
                let i = choose|i: int| 0 <= i < t.len() && #[trigger] t[i] == (key, folded(t)[key]);
                assert(s[i] == t[i]);
            }
            if exists|i: int| 0 <= i < s.len() && (#[trigger] s[i]).0 == key {
                let i = choose|i: int| 0 <= i < s.len() && (#[trigger] s[i]).0 == key;
                assert(t[i] == s[i]);
            }
        }
    }
}

/// A map that holds every pair of a run, and no other key, is what the run folds to.
proof fn lemma_folded_is(s: Seq<(Seq<char>, JsonView)>, m: Map<Seq<char>, JsonView>)
    requires
        forall|i: int| 0 <= i < s.len() ==> m.contains_pair((#[trigger] s[i]).0, s[i].1),
        forall|k: Seq<char>| #[trigger]
            m.contains_key(k) ==> exists|i: int| 0 <= i < s.len() && (#[trigger] s[i]).0 == k,
    ensures
        folded(s) == m,
{
    assert forall|k: Seq<char>| folded(s).contains_key(k) <==> m.contains_key(k) by {
        lemma_folded(s, k);
    }
    assert forall|k: Seq<char>| folded(s).contains_key(k) implies folded(s)[k] == m[k] by {
        lemma_folded(s, k);
    }
    assert(folded(s) =~= m);
}

/// The keys and the trees of the members of an object.
pub open spec fn member_trees(v: Seq<(String, Json)>) -> Seq<(Seq<char>, JsonView)> {
    Seq::new(v.len(), |i: int| (v[i].0@, v[i].1.tree()))
}

/// The trees of the items of an array.
pub open spec fn item_trees(v: Seq<Json>) -> Seq<JsonView> {
    Seq::new(v.len(), |i: int| v[i].tree())
}

proof fn lemma_json_map(v: Seq<(String, Json)>)
    ensures
        json_map(v) == folded(member_trees(v)),
    decreases v.len(),
{
    if v.len() > 0 {
        lemma_json_map(v.drop_last());
        assert(member_trees(v).drop_last() =~= member_trees(v.drop_last()));
    }
}

/// What arrays and objects denote.
pub proof fn lemma_json_tree(j: Json)
    ensures
        j matches Json::Array(items) ==> j.tree() == JsonView::Array(item_trees(items@)),
        j matches Json::Object(members) ==> j.tree() == JsonView::Object(
            folded(member_trees(members@)),
        ),
{
    match j {
        Json::Array(items) => {
            assert(j.tree()->Array_0 =~= item_trees(items@));
        },
        Json::Object(members) => {
            lemma_json_map(members@);
        },
        _ => {},
    }
}

/// Copies a document that was read.
fn copy_value(v: &serde_json::Value) -> (r: Json)
    ensures
        r.tree() == json_tree(*v),
    decreases json_tree(*v),
{
    match node_of(v) {
        Node::Null => Json::Null,
        Node::Bool(b) => Json::Bool(b),
        Node::Number => {
            if let Some(n) = v.as_u64() {
                Json::Unsigned(n)
            } else if let Some(n) = v.as_i64() {
                Json::Negative(n)
            } else {
                Json::Real(print_value(v))
            }
        },
        Node::Str(s) => Json::Str(s.to_owned()),
        Node::Array(items) => {
            let mut out: Vec<Json> = Vec::new();
            let mut i: usize = 0;
            while i < items.len()
                invariant
                    i <= items@.len(),
                    json_tree(*v) == JsonView::Array(value_trees(items@)),
                    item_trees(out@) == value_trees(items@).take(i as int),
                decreases items@.len() - i,
            {
                assert(value_trees(items@)[i as int] == json_tree(items@[i as int]));
                assert(decreases_to!(json_tree(*v) => json_tree(*v)->Array_0));
                assert(decreases_to!(json_tree(*v)->Array_0 => json_tree(*v)->Array_0[i as int]));
                let ghost before = out@;
                out.push(copy_value(&items[i]));
                i += 1;
                assert(item_trees(out@) =~= item_trees(before).push(value_trees(items@)[i - 1]));
                assert(value_trees(items@).take(i as int) =~= value_trees(items@).take(i - 1).push(
                    value_trees(items@)[i - 1],
                ));
            }
            assert(value_trees(items@).take(i as int) =~= value_trees(items@));
            let r = Json::Array(out);
            proof {
                lemma_json_tree(r);
            }
            r
        },
        Node::Object(members) => {
            let ghost m = json_tree(*v)->Object_0;
            let mut out: Vec<(String, Json)> = Vec::new();
            let mut i: usize = 0;
            while i < members.len()
                invariant
                    i <= members@.len(),
                    json_tree(*v) == JsonView::Object(m),
                    m.dom().finite(),
                    forall|j: int|
                        0 <= j < members@.len() ==> m.contains_pair(
                            (#[trigger] members@[j]).0@,
                            json_tree(*members@[j].1),
                        ),
                    out@.len() == i,
                    forall|j: int|
                        0 <= j < i ==> (#[trigger] out@[j]).0@ == members@[j].0@ && out@[j].1.tree()
                            == json_tree(*members@[j].1),
                decreases members@.len() - i,
            {
                let (key, value) = members[i];
                assert(members@[i as int].0@ == key@);
                assert(m.contains_pair(key@, json_tree(*value)));
                assert(m[key@] == json_tree(*value));
                assert(decreases_to!(json_tree(*v) => json_tree(*v)->Object_0));
                assert(decreases_to!(m => m[key@]));
                out.push((key.clone(), copy_value(value)));
                i += 1;
            }
            let r = Json::Object(out);
            proof {
                let s = member_trees(out@);
                assert forall|j: int| 0 <= j < s.len() implies m.contains_pair(
                    (#[trigger] s[j]).0,
                    s[j].1,
                ) by {
                    assert(out@[j].0@ == members@[j].0@);
                }
                assert forall|k: Seq<char>| #[trigger] m.contains_key(k) implies exists|j: int|
                    0 <= j < s.len() && (#[trigger] s[j]).0 == k by {
                    let j = choose|j: int| 0 <= j < members@.len() && (#[trigger] members@[j]).0@ == k;
                    assert(out@[j].0@ == members@[j].0@);
                    assert(s[j].0 == k);
                }
                lemma_folded_is(s, m);
                lemma_json_tree(r);
            }
            r
        },
    }
}

/// Reads a document out of bytes. The error is the message that goes with it.
pub fn parse_json(bytes: &[u8]) -> (r: Result<Json, String>)
    ensures
        match r {
            Ok(j) => json_parsed(bytes@) == Ok::<JsonView, Seq<char>>(j.tree()),
            Err(e) => json_parsed(bytes@) == Err::<JsonView, Seq<char>>(e@),
        },
{
    match parse_value(bytes) {
        Ok(v) => Ok(copy_value(&v)),
        Err(e) => Err(e),
    }
}

/// The member of an object under a key; nothing of a document that is no object.
pub open spec fn member(tree: JsonView, key: Seq<char>) -> Option<JsonView> {
    match tree {
        JsonView::Object(m) => if m.contains_key(key) {
            Some(m[key])
        } else {
            None
        },
        _ => None,
    }
}

/// The text that a member holds, where it holds a text.
pub open spec fn member_text(tree: JsonView, key: Seq<char>) -> Option<Seq<char>> {
    match member(tree, key) {
        Some(JsonView::Str(s)) => Some(s),
        _ => None,
    }
}

/// The truth value that a member holds, where it holds one.
pub open spec fn member_bool(tree: JsonView, key: Seq<char>) -> Option<bool> {
    match member(tree, key) {
        Some(JsonView::Bool(b)) => Some(b),
        _ => None,
    }
}

/// The whole number in the range of `u64` that a member holds, where it holds one.
pub open spec fn member_u64(tree: JsonView, key: Seq<char>) -> Option<u64> {
    match member(tree, key) {
        Some(JsonView::Int(n)) => if 0 <= n <= u64::MAX {
            Some(n as u64)
        } else {
            None
        },
        _ => None,
    }
}

/// The whole number in the range of `i64` that a member holds, where it holds one.
pub open spec fn member_i64(tree: JsonView, key: Seq<char>) -> Option<i64> {
    match member(tree, key) {
        Some(JsonView::Int(n)) => if i64::MIN <= n <= i64::MAX {
            Some(n as i64)
        } else {
            None
        },
        _ => None,
    }
}

/// The numeral of a whole number, with a sign where it is negative.
pub open spec fn signed_numeral(n: int) -> Seq<char> {
    if n < 0 {
        seq!['-'] + number::decimal((-n) as nat)
    } else {
        number::decimal(n as nat)
    }
}

/// The numeral of the number that a member holds, where it holds one.
pub open spec fn member_number(tree: JsonView, key: Seq<char>) -> Option<Seq<char>> {
    match member(tree, key) {
        Some(JsonView::Int(n)) => Some(signed_numeral(n)),
        Some(JsonView::Real(t)) => Some(t),
        _ => None,
    }
}

/// Writes a signed whole number.
pub fn write_signed(n: i64) -> (r: String)
    ensures
        r@ == signed_numeral(n as int),
{
    if n >= 0 {
        write_decimal(n as u64)
    } else {
        let size: u64 = if n == i64::MIN {
            0x8000_0000_0000_0000
        } else {
            (0 - n) as u64
        };
        let mut r: String = String::new();
        r.push('-');
        let digits = write_decimal(size);
        r.append(digits.as_str());
        assert(r@ =~= seq!['-'] + digits@);
        r
    }
}

impl Json {
    /// The member under a key.
    pub fn get(&self, key: &str) -> (r: Option<&Json>)
        ensures
            match r {
                Some(v) => member(self.tree(), key@) == Some(v.tree()),
                None => member(self.tree(), key@) is None,
            },
    {
        proof {
            lemma_json_tree(*self);
        }
        match self {
            Json::Object(members) => {
                let ghost all = member_trees(members@);
                let mut i: usize = members.len();
                assert(all.take(i as int) =~= all);
                while i > 0
                    invariant
                        i <= members@.len(),
                        all == member_trees(members@),
                        folded(all.take(i as int)).contains_key(key@) <==> folded(all).contains_key(
                            key@,
                        ),
                        folded(all).contains_key(key@) ==> folded(all.take(i as int))[key@] == folded(
                            all,
                        )[key@],
                        self.tree() == JsonView::Object(folded(all)),
                    decreases i,
                {
                    proof {
                        let t = all.take(i as int);
                        assert(t.drop_last() =~= all.take(i - 1));
                        assert(t.last() == all[i - 1]);
                    }
                    if str_eq(members[i - 1].0.as_str(), key) {
                        return Some(&members[i - 1].1);
                    }
                    i -= 1;
                }
                assert(all.take(0) =~= Seq::<(Seq<char>, JsonView)>::empty());
                None
            },
            _ => None,
        }
    }

    /// The text that the member under a key holds.
    pub fn text_at(&self, key: &str) -> (r: Option<String>)
        ensures
            match r {
                Some(s) => member_text(self.tree(), key@) == Some(s@),
                None => member_text(self.tree(), key@) is None,
            },
    {
        match self.get(key) {
            Some(Json::Str(s)) => Some(s.clone()),
            _ => None,
        }
    }

    /// The truth value that the member under a key holds.
    pub fn bool_at(&self, key: &str) -> (r: Option<bool>)
        ensures
            r == member_bool(self.tree(), key@),
    {
        match self.get(key) {
            Some(Json::Bool(b)) => Some(*b),
            _ => None,
        }
    }

    /// The whole number in the range of `u64` that the member under a key holds.
    pub fn u64_at(&self, key: &str) -> (r: Option<u64>)
        ensures
            r == member_u64(self.tree(), key@),
    {
        match self.get(key) {
            Some(Json::Unsigned(n)) => Some(*n),
            Some(Json::Negative(n)) => if *n >= 0 {
                Some(*n as u64)
            } else {
                None
            },
            _ => None,
        }
    }

    /// The whole number in the range of `i64` that the member under a key holds.
    pub fn i64_at(&self, key: &str) -> (r: Option<i64>)
        ensures
            r == member_i64(self.tree(), key@),
    {
        match self.get(key) {
            Some(Json::Unsigned(n)) => if *n <= i64::MAX as u64 {
                Some(*n as i64)
            } else {
                None
            },
            Some(Json::Negative(n)) => Some(*n),
            _ => None,
        }
    }

    /// The numeral of the number that the member under a key holds.
    pub fn number_at(&self, key: &str) -> (r: Option<String>)
        ensures
            match r {
                Some(s) => member_number(self.tree(), key@) == Some(s@),
                None => member_number(self.tree(), key@) is None,
            },
    {
        match self.get(key) {
            Some(Json::Unsigned(n)) => Some(write_decimal(*n)),
            Some(Json::Negative(n)) => Some(write_signed(*n)),
            Some(Json::Real(t)) => Some(t.clone()),
            _ => None,
        }
    }
}

/// The text that a value in a map of texts stands for; one that is no text is empty.
pub open spec fn text_or_empty(tree: JsonView) -> Seq<char> {
    match tree {
        JsonView::Str(s) => s,
        _ => Seq::empty(),
    }
}

/// The text under `name` in the map of texts that the member under `key` holds. Without
/// such a member, or where it is no object, the map is empty.
pub open spec fn text_in(tree: JsonView, key: Seq<char>, name: Seq<char>) -> Option<Seq<char>> {
    match member(tree, key) {
        Some(inner) => match member(inner, name) {
            Some(v) => Some(text_or_empty(v)),
            None => None,
        },
        None => None,
    }
}

/// The entries that a run of members makes in a map of texts.
pub open spec fn text_entries(s: Seq<(Seq<char>, JsonView)>) -> Seq<(Seq<char>, Seq<char>)>
    decreases s.len(),
{
    if s.len() == 0 {
        Seq::empty()
    } else {
        strmap::put(text_entries(s.drop_last()), s.last().0, text_or_empty(s.last().1))
    }
}

proof fn lemma_text_entries(s: Seq<(Seq<char>, JsonView)>, name: Seq<char>)
    ensures
        strmap::lookup(text_entries(s), name) == (if folded(s).contains_key(name) {
            Some(text_or_empty(folded(s)[name]))
        } else {
            None
        }),
        strmap::distinct_keys(text_entries(s)),
    decreases s.len(),
{
    if s.len() > 0 {
        lemma_text_entries(s.drop_last(), name);
        let before = text_entries(s.drop_last());
        strmap::law_put_then_lookup(before, s.last().0, text_or_empty(s.last().1), name);
        strmap::law_put_keeps_keys_distinct(before, s.last().0, text_or_empty(s.last().1));
    }
}

/// The map of texts that the member under `key` holds.
pub fn json_string_map(value: &Json, key: &str) -> (r: StrMap)
    ensures
        strmap::distinct_keys(r@),
        forall|name: Seq<char>| #[trigger]
            strmap::lookup(r@, name) == text_in(value.tree(), key@, name),
{
    let mut out = StrMap::new();
    match value.get(key) {
        Some(inner) => {
            proof {
                lemma_json_tree(*inner);
            }
            match inner {
                Json::Object(members) => {
                    let ghost all = member_trees(members@);
                    let mut i: usize = 0;
                    assert(all.take(0) =~= Seq::<(Seq<char>, JsonView)>::empty());
                    while i < members.len()
                        invariant
                            i <= members@.len(),
                            all == member_trees(members@),
                            out@ == text_entries(all.take(i as int)),
                        decreases members@.len() - i,
                    {
                        proof {
                            assert(all.take(i + 1).drop_last() =~= all.take(i as int));
                            assert(all.take(i + 1).last() == all[i as int]);
                        }
                        let text: String = match &members[i].1 {
                            Json::Str(s) => s.clone(),
                            _ => String::new(),
                        };
                        out.insert(members[i].0.clone(), text);
                        i += 1;
                    }
                    proof {
                        assert(all.take(all.len() as int) =~= all);
                        lemma_text_entries(all, Seq::empty());
                        assert forall|name: Seq<char>| #[trigger]
                            strmap::lookup(out@, name) == text_in(value.tree(), key@, name) by {
                            lemma_text_entries(all, name);
                        }
                    }
                },
                _ => {},
            }
        },
        None => {},
    }
    out
}

// ---------------------------------------------------------------------------
// Documents that go out
// ---------------------------------------------------------------------------

/// A JSON document that goes out.
pub enum Doc {
    Null,
    Bool(bool),
    Int(i64),
    Uint(u64),
    Str(String),
    Array(Vec<Doc>),
    /// The members; of two equal keys the later one counts.
    Object(Vec<(&'static str, Doc)>),
}

impl Doc {
    /// What the document denotes.
    pub open spec fn tree(&self) -> JsonView
        decreases self,
    {
        match self {
            Doc::Null => JsonView::Null,
            Doc::Bool(b) => JsonView::Bool(*b),
            Doc::Int(n) => JsonView::Int(*n as int),
            Doc::Uint(n) => JsonView::Int(*n as int),
            Doc::Str(s) => JsonView::Str(s@),
            Doc::Array(items) => JsonView::Array(
                Seq::new(
                    items@.len(),
                    |i: int|
                        if 0 <= i < items@.len() {
                            items@[i].tree()
                        } else {
                            JsonView::Null
                        },
                ),
            ),
            Doc::Object(members) => JsonView::Object(doc_map(members@)),
        }
    }
}

/// The map that a run of members makes; of two equal keys the later one counts.
pub open spec fn doc_map(v: Seq<(&'static str, Doc)>) -> Map<Seq<char>, JsonView>
    decreases v,
{
    if v.len() == 0 {
        Map::empty()
    } else {
        doc_map(v.drop_last()).insert(v.last().0@, v.last().1.tree())
    }
}

/// The keys and the trees of the members of an object.
pub open spec fn doc_members(v: Seq<(&'static str, Doc)>) -> Seq<(Seq<char>, JsonView)> {
    Seq::new(v.len(), |i: int| (v[i].0@, v[i].1.tree()))
}

/// The trees of a run of documents.
pub open spec fn doc_trees(v: Seq<Doc>) -> Seq<JsonView> {
    Seq::new(v.len(), |i: int| v[i].tree())
}

/// The object with the given members.
pub open spec fn object(s: Seq<(Seq<char>, JsonView)>) -> JsonView {
    JsonView::Object(folded(s))
}

proof fn lemma_doc_map(v: Seq<(&'static str, Doc)>)
    ensures
        doc_map(v) == folded(doc_members(v)),
    decreases v.len(),
{
    if v.len() > 0 {
        lemma_doc_map(v.drop_last());
        assert(doc_members(v).drop_last() =~= doc_members(v.drop_last()));
    }
}

/// What arrays and objects denote.
pub proof fn lemma_doc_tree(d: Doc)
    ensures
        d matches Doc::Array(items) ==> d.tree() == JsonView::Array(doc_trees(items@)),
        d matches Doc::Object(members) ==> d.tree() == object(doc_members(members@)),
{
    match d {
        Doc::Array(items) => {
            assert(d.tree()->Array_0 =~= doc_trees(items@));
        },
        Doc::Object(members) => {
            lemma_doc_map(members@);
        },
        _ => {},
    }
}

/// A list of documents.
pub fn list_doc(items: Vec<Doc>) -> (r: Doc)
    ensures
        r.tree() == JsonView::Array(doc_trees(items@)),
{
    let r = Doc::Array(items);
    proof {
        lemma_doc_tree(r);
    }
    r
}

/// An object with the given members.
pub fn object_doc(members: Vec<(&'static str, Doc)>) -> (r: Doc)
    ensures
        r.tree() == object(doc_members(members@)),
{
    let r = Doc::Object(members);
    proof {
        lemma_doc_tree(r);
    }
    r
}

/// A text.
pub fn text_doc(s: &str) -> (r: Doc)
    ensures
        r.tree() == JsonView::Str(s@),
{
    Doc::Str(s.to_owned())
}

proof fn lemma_value_members(
    s: Seq<(String, serde_json::Value)>,
    t: Seq<(Seq<char>, JsonView)>,
)
    requires
        s.len() == t.len(),
        forall|i: int|
            0 <= i < s.len() ==> (#[trigger] s[i]).0@ == t[i].0 && json_tree(s[i].1) == t[i].1,
    ensures
        value_members(s) == folded(t),
    decreases s.len(),
{
    if s.len() > 0 {
        assert forall|i: int| 0 <= i < s.drop_last().len() implies (#[trigger] s.drop_last()[i]).0@
            == t.drop_last()[i].0 && json_tree(s.drop_last()[i].1) == t.drop_last()[i].1 by {
            assert(s.drop_last()[i] == s[i]);
        }
        lemma_value_members(s.drop_last(), t.drop_last());
        assert(s.last() == s[s.len() - 1]);
        assert(t.last() == t[t.len() - 1]);
    }
}

/// Builds the document that is to be printed.
fn build_value(d: &Doc) -> (r: serde_json::Value)
    ensures
        json_tree(r) == d.tree(),
    decreases d,
{
    proof {
        lemma_doc_tree(*d);
    }
    match d {
        Doc::Null => value_of(Shape::Null),
        Doc::Bool(b) => value_of(Shape::Bool(*b)),
        Doc::Int(n) => value_of(Shape::Signed(*n)),
        Doc::Uint(n) => value_of(Shape::Unsigned(*n)),
        Doc::Str(s) => value_of(Shape::Str(s.clone())),
        Doc::Array(items) => {
            let mut out: Vec<serde_json::Value> = Vec::new();
            let mut i: usize = 0;
            while i < items.len()
                invariant
                    i <= items@.len(),
                    *d == Doc::Array(*items),
                    out@.len() == i,
                    forall|j: int| 0 <= j < i ==> json_tree(#[trigger] out@[j]) == items@[j].tree(),
                decreases items@.len() - i,
            {
                assert(decreases_to!(d => d->Array_0));
                assert(decreases_to!(d->Array_0 => d->Array_0@));
                assert(decreases_to!(d->Array_0@ => d->Array_0@[i as int]));
                out.push(build_value(&items[i]));
                i += 1;
            }
            assert(value_trees(out@) =~= doc_trees(items@));
            value_of(Shape::Array(out))
        },
        Doc::Object(members) => {
            let mut out: Vec<(String, serde_json::Value)> = Vec::new();
            let mut i: usize = 0;
            while i < members.len()
                invariant
                    i <= members@.len(),
                    *d == Doc::Object(*members),
                    out@.len() == i,
                    forall|j: int|
                        0 <= j < i ==> (#[trigger] out@[j]).0@ == members@[j].0@ && json_tree(out@[j].1)
                            == members@[j].1.tree(),
                decreases members@.len() - i,
            {
                assert(decreases_to!(d => d->Object_0));
                assert(decreases_to!(d->Object_0 => d->Object_0@));
                assert(decreases_to!(d->Object_0@ => d->Object_0@[i as int]));
                assert(decreases_to!(d->Object_0@[i as int] => d->Object_0@[i as int].1));
                out.push((members[i].0.to_owned(), build_value(&members[i].1)));
                i += 1;
            }
            proof {
                lemma_value_members(out@, doc_members(members@));
            }
            value_of(Shape::Object(out))
        },
    }
}

/// Prints a document in compact form.
pub fn print_doc(d: &Doc) -> (r: String)
    ensures
        r@ == json_text(d.tree()),
{
    print_value(&build_value(d))
}

// ---------------------------------------------------------------------------
// What members and objects are
// ---------------------------------------------------------------------------

/// An object that gets a member more has it, in the place of one with the same key, and
/// every other one as before; an object without members has none, and what is no object
/// has none either.
pub proof fn law_member_is_what_was_put(
    m: Map<Seq<char>, JsonView>,
    key: Seq<char>,
    value: JsonView,
    other: Seq<char>,
)
    ensures
        member(JsonView::Object(m.insert(key, value)), key) == Some(value),
        other != key ==> member(JsonView::Object(m.insert(key, value)), other) == member(
            JsonView::Object(m),
            other,
        ),
        member(JsonView::Object(Map::empty()), key) is None,
        !(value is Object) ==> member(value, key) is None,
{
}

/// An object holds each of the members that it was made of, unless a later one has the same
/// key.
pub proof fn law_object_holds_its_members(s: Seq<(Seq<char>, JsonView)>, i: int)
    requires
        0 <= i < s.len(),
        forall|j: int| i < j < s.len() ==> (#[trigger] s[j]).0 != s[i].0,
    ensures
        member(object(s), s[i].0) == Some(s[i].1),
    decreases s.len(),
{
    let front = s.drop_last();
    if i < front.len() {
        assert forall|j: int| i < j < front.len() implies (#[trigger] front[j]).0 != front[i].0 by {
            assert(front[j] == s[j]);
        }
        law_object_holds_its_members(front, i);
        assert(front[i] == s[i]);
        assert(s[s.len() - 1].0 != s[i].0);
    }
}

/// An object holds nothing but the members that it was made of.
pub proof fn law_object_holds_nothing_else(s: Seq<(Seq<char>, JsonView)>, key: Seq<char>)
    requires
        forall|i: int| 0 <= i < s.len() ==> (#[trigger] s[i]).0 != key,
    ensures
        member(object(s), key) is None,
{
    lemma_folded(s, key);
}

/// What members of the simple kinds hold: a text, a truth value, or a number is read as it
/// is, and what is of another kind as nothing.
pub proof fn law_members_are_read_by_kind(tree: JsonView, key: Seq<char>)
    ensures
        match member(tree, key) {
            Some(JsonView::Str(s)) => member_text(tree, key) == Some(s),
            _ => member_text(tree, key) is None,
        },
        match member(tree, key) {
            Some(JsonView::Bool(b)) => member_bool(tree, key) == Some(b),
            _ => member_bool(tree, key) is None,
        },
        match member(tree, key) {
            Some(JsonView::Int(n)) => (member_u64(tree, key) is Some <==> 0 <= n
                <= 18446744073709551615) && (member_u64(tree, key) is Some ==> member_u64(tree, key)->0
                == n),
            _ => member_u64(tree, key) is None,
        },
        match member(tree, key) {
            Some(JsonView::Int(n)) => (member_i64(tree, key) is Some <==> -9223372036854775808 <= n
                <= 9223372036854775807) && (member_i64(tree, key) is Some ==> member_i64(tree, key)->0
                == n),
            _ => member_i64(tree, key) is None,
        },
        match member(tree, key) {
            Some(JsonView::Int(n)) => member_number(tree, key) == Some(
                if n < 0 {
                    seq!['-'] + number::decimal((-n) as nat)
                } else {
                    number::decimal(n as nat)
                },
            ),
            Some(JsonView::Real(t)) => member_number(tree, key) == Some(t),
            _ => member_number(tree, key) is None,
        },
{
}

/// A map of texts within a document has a text for exactly the keys that its object has:
/// the text itself, or the empty one where something else stands there.
pub proof fn law_map_of_texts_is_the_object(
    m: Map<Seq<char>, JsonView>,
    inner: Map<Seq<char>, JsonView>,
    key: Seq<char>,
    name: Seq<char>,
    s: Seq<char>,
)
    ensures
        text_in(
            JsonView::Object(m.insert(key, JsonView::Object(inner.insert(name, JsonView::Str(s))))),
            key,
            name,
        ) == Some(s),
        inner.contains_key(name) && !(inner[name] is Str) ==> text_in(
            JsonView::Object(m.insert(key, JsonView::Object(inner))),
            key,
            name,
        ) == Some(Seq::<char>::empty()),
        !inner.contains_key(name) ==> text_in(
            JsonView::Object(m.insert(key, JsonView::Object(inner))),
            key,
            name,
        ) is None,
        !m.contains_key(key) ==> text_in(JsonView::Object(m), key, name) is None,
        text_in(JsonView::Object(m.insert(key, JsonView::Str(s))), key, name) is None,
{
}

/// What documents that go out denote, kind by kind.
pub proof fn law_documents_denote_their_values(n: i64, u: u64, b: bool, s: String, items: Vec<Doc>, i: int)
    ensures
        Doc::Int(n).tree() == JsonView::Int(n as int),
        Doc::Uint(u).tree() == JsonView::Int(u as int),
        Doc::Bool(b).tree() == JsonView::Bool(b),
        Doc::Str(s).tree() == JsonView::Str(s@),
        Doc::Null.tree() == JsonView::Null,
        Doc::Array(items).tree() is Array,
        Doc::Array(items).tree()->Array_0.len() == items@.len(),
        0 <= i < items@.len() ==> Doc::Array(items).tree()->Array_0[i] == items@[i].tree(),
{
}

/// What documents that came in denote, kind by kind.
pub proof fn law_values_denote_themselves(n: i64, u: u64, b: bool, s: String, items: Vec<Json>, i: int)
    ensures
        Json::Negative(n).tree() == JsonView::Int(n as int),
        Json::Unsigned(u).tree() == JsonView::Int(u as int),
        Json::Bool(b).tree() == JsonView::Bool(b),
        Json::Str(s).tree() == JsonView::Str(s@),
        Json::Real(s).tree() == JsonView::Real(s@),
        Json::Null.tree() == JsonView::Null,
        Json::Array(items).tree() is Array,
        Json::Array(items).tree()->Array_0.len() == items@.len(),
        0 <= i < items@.len() ==> Json::Array(items).tree()->Array_0[i] == items@[i].tree(),
{
}

/// An object of one member holds it.
pub proof fn lemma_object_1(
    a: (Seq<char>, JsonView),
)
    ensures
        member(object(seq![a]), a.0) == Some(a.1),
{
    let s = seq![a];
    assert(s[0] == a);
    law_object_holds_its_members(s, 0);
}

/// An object of two members holds each of them.
pub proof fn lemma_object_2(
    a: (Seq<char>, JsonView),
    b: (Seq<char>, JsonView),
)
    requires
        a.0 != b.0,
    ensures
        member(object(seq![a, b]), a.0) == Some(a.1),
        member(object(seq![a, b]), b.0) == Some(b.1),
{
    let s = seq![a, b];
    assert(s[0] == a);
    assert(s[1] == b);
    law_object_holds_its_members(s, 0);
    law_object_holds_its_members(s, 1);
}

/// An object of three members holds each of them.
pub proof fn lemma_object_3(
    a: (Seq<char>, JsonView),
    b: (Seq<char>, JsonView),
    c: (Seq<char>, JsonView),
)
    requires
        a.0 != b.0,
        a.0 != c.0,
        b.0 != c.0,
    ensures
        member(object(seq![a, b, c]), a.0) == Some(a.1),
        member(object(seq![a, b, c]), b.0) == Some(b.1),
        member(object(seq![a, b, c]), c.0) == Some(c.1),
{
    let s = seq![a, b, c];
    assert(s[0] == a);
    assert(s[1] == b);
    assert(s[2] == c);
    law_object_holds_its_members(s, 0);
    law_object_holds_its_members(s, 1);
    law_object_holds_its_members(s, 2);
}

/// An object of four members holds each of them.
pub proof fn lemma_object_4(
    a: (Seq<char>, JsonView),
    b: (Seq<char>, JsonView),
    c: (Seq<char>, JsonView),
    d: (Seq<char>, JsonView),
)
    requires
        a.0 != b.0,
        a.0 != c.0,
        a.0 != d.0,
        b.0 != c.0,
        b.0 != d.0,
        c.0 != d.0,
    ensures
        member(object(seq![a, b, c, d]), a.0) == Some(a.1),
        member(object(seq![a, b, c, d]), b.0) == Some(b.1),
        member(object(seq![a, b, c, d]), c.0) == Some(c.1),
        member(object(seq![a, b, c, d]), d.0) == Some(d.1),
{
    let s = seq![a, b, c, d];
    assert(s[0] == a);
    assert(s[1] == b);
    assert(s[2] == c);
    assert(s[3] == d);
    law_object_holds_its_members(s, 0);
    law_object_holds_its_members(s, 1);
    law_object_holds_its_members(s, 2);
    law_object_holds_its_members(s, 3);
}

/// An object of five members holds each of them.
pub proof fn lemma_object_5(
    a: (Seq<char>, JsonView),
    b: (Seq<char>, JsonView),
    c: (Seq<char>, JsonView),
    d: (Seq<char>, JsonView),
    e: (Seq<char>, JsonView),
)
    requires
        a.0 != b.0,
        a.0 != c.0,
        a.0 != d.0,
        a.0 != e.0,
        b.0 != c.0,
        b.0 != d.0,
        b.0 != e.0,
        c.0 != d.0,
        c.0 != e.0,
        d.0 != e.0,
    ensures
        member(object(seq![a, b, c, d, e]), a.0) == Some(a.1),
        member(object(seq![a, b, c, d, e]), b.0) == Some(b.1),
        member(object(seq![a, b, c, d, e]), c.0) == Some(c.1),
        member(object(seq![a, b, c, d, e]), d.0) == Some(d.1),
        member(object(seq![a, b, c, d, e]), e.0) == Some(e.1),
{
    let s = seq![a, b, c, d, e];
    assert(s[0] == a);
    assert(s[1] == b);
    assert(s[2] == c);
    assert(s[3] == d);
    assert(s[4] == e);
    law_object_holds_its_members(s, 0);
    law_object_holds_its_members(s, 1);
    law_object_holds_its_members(s, 2);
    law_object_holds_its_members(s, 3);
    law_object_holds_its_members(s, 4);
}

/// An object of six members holds each of them.
pub proof fn lemma_object_6(
    a: (Seq<char>, JsonView),
    b: (Seq<char>, JsonView),
    c: (Seq<char>, JsonView),
    d: (Seq<char>, JsonView),
    e: (Seq<char>, JsonView),
    f: (Seq<char>, JsonView),
)
    requires
        a.0 != b.0,
        a.0 != c.0,
        a.0 != d.0,
        a.0 != e.0,
        a.0 != f.0,
        b.0 != c.0,
        b.0 != d.0,
        b.0 != e.0,
        b.0 != f.0,
        c.0 != d.0,
        c.0 != e.0,
        c.0 != f.0,
        d.0 != e.0,
        d.0 != f.0,
        e.0 != f.0,
    ensures
        member(object(seq![a, b, c, d, e, f]), a.0) == Some(a.1),
        member(object(seq![a, b, c, d, e, f]), b.0) == Some(b.1),
        member(object(seq![a, b, c, d, e, f]), c.0) == Some(c.1),
        member(object(seq![a, b, c, d, e, f]), d.0) == Some(d.1),
        member(object(seq![a, b, c, d, e, f]), e.0) == Some(e.1),
        member(object(seq![a, b, c, d, e, f]), f.0) == Some(f.1),
{
    let s = seq![a, b, c, d, e, f];
    assert(s[0] == a);
    assert(s[1] == b);
    assert(s[2] == c);
    assert(s[3] == d);
    assert(s[4] == e);
    assert(s[5] == f);
    law_object_holds_its_members(s, 0);
    law_object_holds_its_members(s, 1);
    law_object_holds_its_members(s, 2);
    law_object_holds_its_members(s, 3);
    law_object_holds_its_members(s, 4);
    law_object_holds_its_members(s, 5);
}

/// An object of seven members holds each of them.
pub proof fn lemma_object_7(
    a: (Seq<char>, JsonView),
    b: (Seq<char>, JsonView),
    c: (Seq<char>, JsonView),
    d: (Seq<char>, JsonView),
    e: (Seq<char>, JsonView),
    f: (Seq<char>, JsonView),
    g: (Seq<char>, JsonView),
)
    requires
        a.0 != b.0,
        a.0 != c.0,
        a.0 != d.0,
        a.0 != e.0,
        a.0 != f.0,
        a.0 != g.0,
        b.0 != c.0,
        b.0 != d.0,
        b.0 != e.0,
        b.0 != f.0,
        b.0 != g.0,
        c.0 != d.0,
        c.0 != e.0,
        c.0 != f.0,
        c.0 != g.0,
        d.0 != e.0,
        d.0 != f.0,
        d.0 != g.0,
        e.0 != f.0,
        e.0 != g.0,
        f.0 != g.0,
    ensures
        member(object(seq![a, b, c, d, e, f, g]), a.0) == Some(a.1),
        member(object(seq![a, b, c, d, e, f, g]), b.0) == Some(b.1),
        member(object(seq![a, b, c, d, e, f, g]), c.0) == Some(c.1),
        member(object(seq![a, b, c, d, e, f, g]), d.0) == Some(d.1),
        member(object(seq![a, b, c, d, e, f, g]), e.0) == Some(e.1),
        member(object(seq![a, b, c, d, e, f, g]), f.0) == Some(f.1),
        member(object(seq![a, b, c, d, e, f, g]), g.0) == Some(g.1),
{
    let s = seq![a, b, c, d, e, f, g];
    assert(s[0] == a);
    assert(s[1] == b);
    assert(s[2] == c);
    assert(s[3] == d);
    assert(s[4] == e);
    assert(s[5] == f);
    assert(s[6] == g);
    law_object_holds_its_members(s, 0);
    law_object_holds_its_members(s, 1);
    law_object_holds_its_members(s, 2);
    law_object_holds_its_members(s, 3);
    law_object_holds_its_members(s, 4);
    law_object_holds_its_members(s, 5);
    law_object_holds_its_members(s, 6);
}

/// An object that came in, or goes out, holds the value of each of its members, unless a later
/// one has the same key.
pub proof fn law_objects_denote_their_members(
    v: Vec<(String, Json)>,
    w: Vec<(&'static str, Doc)>,
    i: int,
)
    ensures
        0 <= i < v@.len() && (forall|j: int| i < j < v@.len() ==> (#[trigger] v@[j]).0@ != v@[i].0@)
            ==> member(Json::Object(v).tree(), v@[i].0@) == Some(v@[i].1.tree()),
        0 <= i < w@.len() && (forall|j: int| i < j < w@.len() ==> (#[trigger] w@[j]).0@ != w@[i].0@)
            ==> member(Doc::Object(w).tree(), w@[i].0@) == Some(w@[i].1.tree()),
{
    lemma_json_tree(Json::Object(v));
    lemma_json_map(v@);
    lemma_doc_map(w@);
    let a = member_trees(v@);
    let b = doc_members(w@);
    if 0 <= i < v@.len() && (forall|j: int| i < j < v@.len() ==> (#[trigger] v@[j]).0@ != v@[i].0@) {
        assert forall|j: int| i < j < a.len() implies (#[trigger] a[j]).0 != a[i].0 by {
            assert(v@[j].0@ != v@[i].0@);
        }
        law_object_holds_its_members(a, i);
    }
    if 0 <= i < w@.len() && (forall|j: int| i < j < w@.len() ==> (#[trigger] w@[j]).0@ != w@[i].0@) {
        assert forall|j: int| i < j < b.len() implies (#[trigger] b[j]).0 != b[i].0 by {
            assert(w@[j].0@ != w@[i].0@);
        }
        law_object_holds_its_members(b, i);
    }
}

/// An object of one member holds nothing under another key.
pub proof fn lemma_object_1_only(
    a: (Seq<char>, JsonView),
    key: Seq<char>,
)
    requires
        key != a.0,
    ensures
        member(object(seq![a]), key) is None,
{
    let s = seq![a];
    assert(s[0] == a);
    assert forall|i: int| 0 <= i < s.len() implies (#[trigger] s[i]).0 != key by {
        assert(i == 0);
    }
    law_object_holds_nothing_else(s, key);
}

/// An object of two members holds nothing under another key.
pub proof fn lemma_object_2_only(
    a: (Seq<char>, JsonView),
    b: (Seq<char>, JsonView),
    key: Seq<char>,
)
    requires
        key != a.0,
        key != b.0,
    ensures
        member(object(seq![a, b]), key) is None,
{
    let s = seq![a, b];
    assert(s[0] == a);
    assert(s[1] == b);
    assert forall|i: int| 0 <= i < s.len() implies (#[trigger] s[i]).0 != key by {
        assert(i == 0 || i == 1);
    }
    law_object_holds_nothing_else(s, key);
}

/// An object of three members holds nothing under another key.
pub proof fn lemma_object_3_only(
    a: (Seq<char>, JsonView),
    b: (Seq<char>, JsonView),
    c: (Seq<char>, JsonView),
    key: Seq<char>,
)
    requires
        key != a.0,
        key != b.0,
        key != c.0,
    ensures
        member(object(seq![a, b, c]), key) is None,
{
    let s = seq![a, b, c];
    assert(s[0] == a);
    assert(s[1] == b);
    assert(s[2] == c);
    assert forall|i: int| 0 <= i < s.len() implies (#[trigger] s[i]).0 != key by {
        assert(i == 0 || i == 1 || i == 2);
    }
    law_object_holds_nothing_else(s, key);
}

/// An object of five members holds nothing under another key.
pub proof fn lemma_object_5_only(
    a: (Seq<char>, JsonView),
    b: (Seq<char>, JsonView),
    c: (Seq<char>, JsonView),
    d: (Seq<char>, JsonView),
    e: (Seq<char>, JsonView),
    key: Seq<char>,
)
    requires
        key != a.0,
        key != b.0,
        key != c.0,
        key != d.0,
        key != e.0,
    ensures
        member(object(seq![a, b, c, d, e]), key) is None,
{
    let s = seq![a, b, c, d, e];
    assert(s[0] == a);
    assert(s[1] == b);
    assert(s[2] == c);
    assert(s[3] == d);
    assert(s[4] == e);
    assert forall|i: int| 0 <= i < s.len() implies (#[trigger] s[i]).0 != key by {
        assert(i == 0 || i == 1 || i == 2 || i == 3 || i == 4);
    }
    law_object_holds_nothing_else(s, key);
}

/// An object of six members holds nothing under another key.
pub proof fn lemma_object_6_only(
    a: (Seq<char>, JsonView),
    b: (Seq<char>, JsonView),
    c: (Seq<char>, JsonView),
    d: (Seq<char>, JsonView),
    e: (Seq<char>, JsonView),
    f: (Seq<char>, JsonView),
    key: Seq<char>,
)
    requires
        key != a.0,
        key != b.0,
        key != c.0,
        key != d.0,
        key != e.0,
        key != f.0,
    ensures
        member(object(seq![a, b, c, d, e, f]), key) is None,
{
    let s = seq![a, b, c, d, e, f];
    assert(s[0] == a);
    assert(s[1] == b);
    assert(s[2] == c);
    assert(s[3] == d);
    assert(s[4] == e);
    assert(s[5] == f);
    assert forall|i: int| 0 <= i < s.len() implies (#[trigger] s[i]).0 != key by {
        assert(i == 0 || i == 1 || i == 2 || i == 3 || i == 4 || i == 5);
    }
    law_object_holds_nothing_else(s, key);
}

/// An object of seven members holds nothing under another key.
pub proof fn lemma_object_7_only(
    a: (Seq<char>, JsonView),
    b: (Seq<char>, JsonView),
    c: (Seq<char>, JsonView),
    d: (Seq<char>, JsonView),
    e: (Seq<char>, JsonView),
    f: (Seq<char>, JsonView),
    g: (Seq<char>, JsonView),
    key: Seq<char>,
)
    requires
        key != a.0,
        key != b.0,
        key != c.0,
        key != d.0,
        key != e.0,
        key != f.0,
        key != g.0,
    ensures
        member(object(seq![a, b, c, d, e, f, g]), key) is None,
{
    let s = seq![a, b, c, d, e, f, g];
    assert(s[0] == a);
    assert(s[1] == b);
    assert(s[2] == c);
    assert(s[3] == d);
    assert(s[4] == e);
    assert(s[5] == f);
    assert(s[6] == g);
    assert forall|i: int| 0 <= i < s.len() implies (#[trigger] s[i]).0 != key by {
        assert(i == 0 || i == 1 || i == 2 || i == 3 || i == 4 || i == 5 || i == 6);
    }
    law_object_holds_nothing_else(s, key);
}

} // verus!
