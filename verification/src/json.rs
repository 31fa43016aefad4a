//! Values of the JSON documents that the log service and the node directory answer with.
use vstd::prelude::*;

use crate::string_map::Duplicate;
use crate::text;

verus! {

/// A number as a document writes it.
#[derive(Debug)]
pub enum JsonNumber {
    /// A whole number that is not negative.
    Unsigned(u64),
    /// A negative whole number.
    Negative(i64),
    /// A number with a decimal point or an exponent, or a whole one that is too large for the others,
    /// as text.
    Decimal(String),
}

/// The model of a number.
pub enum NumberModel {
    Unsigned(u64),
    Negative(i64),
    Decimal(Seq<char>),
}

impl View for JsonNumber {
    type V = NumberModel;

    open spec fn view(&self) -> NumberModel {
        match self {
            JsonNumber::Unsigned(n) => NumberModel::Unsigned(*n),
            JsonNumber::Negative(n) => NumberModel::Negative(*n),
            JsonNumber::Decimal(t) => NumberModel::Decimal(t@),
        }
    }
}

impl NumberModel {
    /// The number where it is a whole one of 64 bits with a sign.
    pub open spec fn signed(self) -> Option<int> {
        match self {
            NumberModel::Unsigned(n) => if n <= i64::MAX {
                Some(n as int)
            } else {
                None
            },
            NumberModel::Negative(n) => Some(n as int),
            NumberModel::Decimal(_) => None,
        }
    }
}

impl JsonNumber {
    /// A number of the same model.
    fn copy(&self) -> (r: JsonNumber)
        ensures
            r@ == self@,
    {
        match self {
            JsonNumber::Unsigned(n) => JsonNumber::Unsigned(*n),
            JsonNumber::Negative(n) => JsonNumber::Negative(*n),
            JsonNumber::Decimal(t) => JsonNumber::Decimal(t.clone()),
        }
    }

    /// Whether the two numbers are the same.
    fn same(&self, other: &JsonNumber) -> (r: bool)
        ensures
            r == (self@ == other@),
    {
        match (self, other) {
            (JsonNumber::Unsigned(a), JsonNumber::Unsigned(b)) => *a == *b,
            (JsonNumber::Negative(a), JsonNumber::Negative(b)) => *a == *b,
            (JsonNumber::Decimal(a), JsonNumber::Decimal(b)) => text::same(a.as_str(), b.as_str()),
            _ => false,
        }
    }
}

/// A JSON value. The members of an object stand in the order of their keys.
#[derive(Debug)]
pub enum Json {
    Null,
    Bool(bool),
    Number(JsonNumber),
    Text(String),
    Array(Vec<Json>),
    Object(Vec<(String, Json)>),
}

/// The model of a JSON value.
pub enum JsonModel {
    Null,
    Bool(bool),
    Number(NumberModel),
    Text(Seq<char>),
    Array(Seq<JsonModel>),
    Object(Seq<(Seq<char>, JsonModel)>),
}

impl JsonModel {
    /// The value of the member `key`, where this is an object that has one.
    pub open spec fn member(self, key: Seq<char>) -> Option<JsonModel> {
        match self {
            JsonModel::Object(entries) => first_member(entries, key),
            _ => None,
        }
    }

    /// The member `inner` of the member `outer`.
    pub open spec fn member_of(self, outer: Seq<char>, inner: Seq<char>) -> Option<JsonModel> {
        match self.member(outer) {
            Some(v) => v.member(inner),
            None => None,
        }
    }
}

pub open spec fn first_member(entries: Seq<(Seq<char>, JsonModel)>, key: Seq<char>) -> Option<
    JsonModel,
>
    decreases entries.len(),
{
    if entries.len() == 0 {
        None
    } else if entries[0].0 == key {
        Some(entries[0].1)
    } else {
        first_member(entries.skip(1), key)
    }
}

/// The model of an optional value.
pub open spec fn opt_model(o: Option<&Json>) -> Option<JsonModel> {
    match o {
        Some(v) => Some(v@),
        None => None,
    }
}

/// The text that a value holds.
pub open spec fn text_in(o: Option<JsonModel>) -> Option<Seq<char>> {
    match o {
        Some(JsonModel::Text(t)) => Some(t),
        _ => None,
    }
}

/// The items of an array; none where the value is no array.
pub open spec fn items_in(o: Option<JsonModel>) -> Seq<JsonModel> {
    match o {
        Some(JsonModel::Array(items)) => items,
        _ => Seq::empty(),
    }
}

/// The whole number of 64 bits with a sign that a value holds.
pub open spec fn signed_in(o: Option<JsonModel>) -> Option<int> {
    match o {
        Some(JsonModel::Number(n)) => n.signed(),
        _ => None,
    }
}

/// The whole number without a sign that a value holds.
pub open spec fn unsigned_in(o: Option<JsonModel>) -> Option<int> {
    match o {
        Some(JsonModel::Number(NumberModel::Unsigned(n))) => Some(n as int),
        _ => None,
    }
}

/// The number that a value holds.
pub open spec fn number_in(o: Option<JsonModel>) -> Option<NumberModel> {
    match o {
        Some(JsonModel::Number(n)) => Some(n),
        _ => None,
    }
}

/// The value is the boolean `true`.
pub open spec fn is_true(o: Option<JsonModel>) -> bool {
    o == Some(JsonModel::Bool(true))
}

/// `first`, or `second` where there is no first.
pub open spec fn or_else<T>(first: Option<T>, second: Option<T>) -> Option<T> {
    match first {
        Some(v) => Some(v),
        None => second,
    }
}

impl Json {
    pub open spec fn model(self) -> JsonModel
        decreases self,
    {
        match self {
            Json::Null => JsonModel::Null,
            Json::Bool(b) => JsonModel::Bool(b),
            Json::Number(n) => JsonModel::Number(n@),
            Json::Text(t) => JsonModel::Text(t@),
            Json::Array(items) => JsonModel::Array(
                Seq::new(
                    items@.len(),
                    |i: int|
                        if 0 <= i < items@.len() {
                            items@[i].model()
                        } else {
                            JsonModel::Null
                        },
                ),
            ),
            Json::Object(items) => JsonModel::Object(
                Seq::new(
                    items@.len(),
                    |i: int|
                        if 0 <= i < items@.len() {
                            (items@[i].0@, items@[i].1.model())
                        } else {
                            (Seq::empty(), JsonModel::Null)
                        },
                ),
            ),
        }
    }
}

impl View for Json {
    type V = JsonModel;

    open spec fn view(&self) -> JsonModel {
        self.model()
    }
}

impl Json {
    /// A value of the same model.
    fn copy(&self) -> (r: Json)
        ensures
            r@ == self@,
        decreases self,
    {
        match self {
            Json::Null => Json::Null,
            Json::Bool(b) => Json::Bool(*b),
            Json::Number(n) => Json::Number(n.copy()),
            Json::Text(t) => Json::Text(t.clone()),
            Json::Array(items) => {
                let mut out: Vec<Json> = Vec::new();
                let mut i: usize = 0;
                while i < items.len()
                    invariant
                        i <= items.len(),
                        *self == Json::Array(*items),
                        out@.len() == i,
                        forall|j: int| 0 <= j < i ==> (#[trigger] out@[j])@ == items@[j]@,
                    decreases items.len() - i,
                {
                    assert(decreases_to!(*self => self->Array_0));
                    assert(decreases_to!(*items => items@));
                    assert(decreases_to!(items@ => items@[i as int]));
                    let c = items[i].copy();
                    out.push(c);
                    i = i + 1;
                }
                let r = Json::Array(out);
                assert(r@->Array_0 =~= self@->Array_0);
                r
            },
            Json::Object(items) => {
                let mut out: Vec<(String, Json)> = Vec::new();
                let mut i: usize = 0;
                while i < items.len()
                    invariant
                        i <= items.len(),
                        *self == Json::Object(*items),
                        out@.len() == i,
                        forall|j: int|
                            0 <= j < i ==> (#[trigger] out@[j]).1@ == items@[j].1@ && out@[j].0@
                                == items@[j].0@,
                    decreases items.len() - i,
                {
                    assert(decreases_to!(*self => self->Object_0));
                    assert(decreases_to!(*items => items@));
                    assert(decreases_to!(items@ => items@[i as int]));
                    assert(decreases_to!(items@[i as int] => items@[i as int].1));
                    let c = items[i].1.copy();
                    out.push((items[i].0.clone(), c));
                    i = i + 1;
                }
                let r = Json::Object(out);
                assert(r@->Object_0 =~= self@->Object_0);
                r
            },
        }
    }

    /// Whether the two values are the same.
    pub fn same(&self, other: &Json) -> (r: bool)
        ensures
            r == (self@ == other@),
        decreases self,
    {
        match (self, other) {
            (Json::Null, Json::Null) => true,
            (Json::Bool(a), Json::Bool(b)) => *a == *b,
            (Json::Number(a), Json::Number(b)) => a.same(b),
            (Json::Text(a), Json::Text(b)) => text::same(a.as_str(), b.as_str()),
            (Json::Array(a), Json::Array(b)) => {
                if a.len() != b.len() {
                    assert(self@->Array_0.len() != other@->Array_0.len());
                    return false;
                }
                let mut i: usize = 0;
                while i < a.len()
                    invariant
                        i <= a@.len(),
                        a@.len() == b@.len(),
                        *self == Json::Array(*a),
                        *other == Json::Array(*b),
                        forall|j: int| 0 <= j < i ==> a@[j]@ == b@[j]@,
                    decreases a.len() - i,
                {
                    assert(decreases_to!(*self => self->Array_0));
                    assert(decreases_to!(*a => a@));
                    assert(decreases_to!(a@ => a@[i as int]));
                    if !a[i].same(&b[i]) {
                        assert(self@->Array_0[i as int] != other@->Array_0[i as int]);
                        return false;
                    }
                    i = i + 1;
                }
                assert(self@->Array_0 =~= other@->Array_0);
                true
            },
            (Json::Object(a), Json::Object(b)) => {
                if a.len() != b.len() {
                    assert(self@->Object_0.len() != other@->Object_0.len());
                    return false;
                }
                let mut i: usize = 0;
                while i < a.len()
                    invariant
                        i <= a@.len(),
                        a@.len() == b@.len(),
                        *self == Json::Object(*a),
                        *other == Json::Object(*b),
                        forall|j: int|
                            0 <= j < i ==> a@[j].0@ == b@[j].0@ && a@[j].1@ == b@[j].1@,
                    decreases a.len() - i,
                {
                    assert(decreases_to!(*self => self->Object_0));
                    assert(decreases_to!(*a => a@));
                    assert(decreases_to!(a@ => a@[i as int]));
                    assert(decreases_to!(a@[i as int] => a@[i as int].1));
                    if !text::same(a[i].0.as_str(), b[i].0.as_str()) || !a[i].1.same(&b[i].1) {
                        assert(self@->Object_0[i as int] != other@->Object_0[i as int]);
                        return false;
                    }
                    i = i + 1;
                }
                assert(self@->Object_0 =~= other@->Object_0);
                true
            },
            _ => false,
        }
    }

    /// The value of the member `key`.
    pub fn get(&self, key: &str) -> (r: Option<&Json>)
        ensures
            opt_model(r) == self@.member(key@),
    {
        match self {
            Json::Object(entries) => {
                let ghost all = self@->Object_0;
                let mut i: usize = 0;
                assert(all.skip(0) =~= all);
                while i < entries.len()
                    invariant
                        i <= entries@.len(),
                        *self == Json::Object(*entries),
                        all == self@->Object_0,
                        all.len() == entries@.len(),
                        first_member(all, key@) == first_member(all.skip(i as int), key@),
                    decreases entries.len() - i,
                {
                    assert(all.skip(i as int)[0] == all[i as int]);
                    assert(all.skip(i as int).skip(1) =~= all.skip(i + 1));
                    if text::same(entries[i].0.as_str(), key) {
                        return Some(&entries[i].1);
                    }
                    i = i + 1;
                }
                None
            },
            _ => None,
        }
    }

    /// The member `inner` of the member `outer`.
    pub fn get_in(&self, outer: &str, inner: &str) -> (r: Option<&Json>)
        ensures
            opt_model(r) == self@.member_of(outer@, inner@),
    {
        match self.get(outer) {
            Some(v) => v.get(inner),
            None => None,
        }
    }
}

/// The text that a value holds.
pub fn as_text<'a>(o: Option<&'a Json>) -> (r: Option<&'a String>)
    ensures
        match r {
            Some(t) => text_in(opt_model(o)) == Some(t@),
            None => text_in(opt_model(o)) is None,
        },
{
    match o {
        Some(Json::Text(t)) => Some(t),
        _ => None,
    }
}

/// The array that a value holds.
pub fn as_array<'a>(o: Option<&'a Json>) -> (r: Option<&'a Vec<Json>>)
    ensures
        match r {
            Some(v) => opt_model(o) matches Some(JsonModel::Array(items)) && items.len()
                == v@.len() && forall|i: int| 0 <= i < v@.len() ==> #[trigger] v@[i]@ == items[i],
            None => !(opt_model(o) matches Some(JsonModel::Array(_))),
        },
{
    match o {
        Some(Json::Array(v)) => Some(v),
        _ => None,
    }
}

pub fn as_signed(o: Option<&Json>) -> (r: Option<i64>)
    ensures
        match r {
            Some(n) => signed_in(opt_model(o)) == Some(n as int),
            None => signed_in(opt_model(o)) is None,
        },
{
    match o {
        Some(Json::Number(JsonNumber::Unsigned(n))) => if *n <= i64::MAX as u64 {
            Some(*n as i64)
        } else {
            None
        },
        Some(Json::Number(JsonNumber::Negative(n))) => Some(*n),
        _ => None,
    }
}

pub fn as_unsigned(o: Option<&Json>) -> (r: Option<u64>)
    ensures
        match r {
            Some(n) => unsigned_in(opt_model(o)) == Some(n as int),
            None => unsigned_in(opt_model(o)) is None,
        },
{
    match o {
        Some(Json::Number(JsonNumber::Unsigned(n))) => Some(*n),
        _ => None,
    }
}

/// The number that a value holds.
pub fn as_number<'a>(o: Option<&'a Json>) -> (r: Option<&'a JsonNumber>)
    ensures
        match r {
            Some(n) => number_in(opt_model(o)) == Some(n@),
            None => number_in(opt_model(o)) is None,
        },
{
    match o {
        Some(Json::Number(n)) => Some(n),
        _ => None,
    }
}

pub fn as_true(o: Option<&Json>) -> (r: bool)
    ensures
        r == is_true(opt_model(o)),
{
    match o {
        Some(Json::Bool(b)) => *b,
        _ => false,
    }
}

// ---------------------------------------------------------------------------------------------
// Documents as text
// ---------------------------------------------------------------------------------------------
/// A value of `serde_json`, which is opaque here.
#[verifier::external_type_specification]
#[verifier::external_body]
pub struct ExValue(serde_json::Value);

/// Takes a `serde_json::Value` apart, one variant at a time: the members of an object come in the
/// order in which it gives them, and a number that is neither whole without a sign nor whole with one
/// as the text that `serde_json::Number` prints. Nothing is said of the result here; `read_document`
/// names it.
#[verifier::external_body]
fn taken_apart(value: serde_json::Value) -> (r: Json) {
    match value {
        serde_json::Value::Null => Json::Null,
        serde_json::Value::Bool(b) => Json::Bool(b),
        serde_json::Value::Number(n) => Json::Number(match (n.as_u64(), n.as_i64()) {
            (Some(u), _) => JsonNumber::Unsigned(u),
            (None, Some(i)) => JsonNumber::Negative(i),
            (None, None) => JsonNumber::Decimal(n.to_string()),
        }),
        serde_json::Value::String(t) => Json::Text(t),
        serde_json::Value::Array(v) => Json::Array(v.into_iter().map(taken_apart).collect()),
        serde_json::Value::Object(m) => {
            Json::Object(m.into_iter().map(|e| (e.0, taken_apart(e.1))).collect())
        },
    }
}

/// What `serde_json::from_str` reads from `text`, or the text of its error.
pub uninterp spec fn document_reading(text: Seq<char>) -> Result<JsonModel, Seq<char>>;

/// Calls `serde_json::from_str`. The document depends on the text alone.
#[verifier::external_body]
pub(crate) fn read_document(text: &str) -> (r: Result<Json, String>)
    ensures
        match r {
            Ok(v) => document_reading(text@) == Ok::<JsonModel, Seq<char>>(v@),
            Err(e) => document_reading(text@) == Err::<JsonModel, Seq<char>>(e@),
        },
{
    serde_json::from_str::<serde_json::Value>(text).map(taken_apart).map_err(|e| e.to_string())
}

/// Reads a document.
pub fn parse(text: &str) -> (r: Result<Json, String>)
    ensures
        match r {
            Ok(v) => document_reading(text@) == Ok::<JsonModel, Seq<char>>(v@),
            Err(e) => document_reading(text@) == Err::<JsonModel, Seq<char>>(e@),
        },
{
    read_document(text)
}

impl Duplicate for Json {
    fn duplicate(&self) -> (r: Self) {
        self.copy()
    }
}

/// An object gives the value of the first member of a key; what has no such member, or is no object,
/// gives none.
pub proof fn law_members(entries: Seq<(Seq<char>, JsonModel)>, key: Seq<char>, i: int)
    ensures
        0 <= i < entries.len() && entries[i].0 == key && (forall|k: int|
            0 <= k < i ==> (#[trigger] entries[k]).0 != key) ==> JsonModel::Object(entries).member(
            key,
        ) == Some(entries[i].1),
        (forall|k: int| 0 <= k < entries.len() ==> (#[trigger] entries[k]).0 != key)
            ==> JsonModel::Object(entries).member(key) is None,
        JsonModel::Null.member(key) is None,
    decreases entries.len(),
{
    if entries.len() > 0 {
        let rest = entries.skip(1);
        assert(forall|k: int| 0 <= k < rest.len() ==> #[trigger] rest[k] == entries[k + 1]);
        law_members(rest, key, i - 1);
        if 0 < i < entries.len() && (forall|k: int|
            0 <= k < i ==> (#[trigger] entries[k]).0 != key) {
            assert(entries[0].0 != key);
            assert(rest[i - 1] == entries[i]);
        }
        if forall|k: int| 0 <= k < entries.len() ==> (#[trigger] entries[k]).0 != key {
            assert(entries[0].0 != key);
        }
    }
}

/// A whole number reads as itself where it fits, with a sign or without; what is no whole number
/// reads as none, and neither does a text.
pub proof fn law_whole_numbers(n: u64, m: i64, t: Seq<char>)
    ensures
        unsigned_in(Some(JsonModel::Number(NumberModel::Unsigned(n)))) == Some(n as int),
        n <= 9_223_372_036_854_775_807 ==> signed_in(
            Some(JsonModel::Number(NumberModel::Unsigned(n))),
        ) == Some(n as int),
        n > 9_223_372_036_854_775_807 ==> signed_in(
            Some(JsonModel::Number(NumberModel::Unsigned(n))),
        ) is None,
        signed_in(Some(JsonModel::Number(NumberModel::Negative(m)))) == Some(m as int),
        unsigned_in(Some(JsonModel::Number(NumberModel::Negative(m)))) is None,
        signed_in(Some(JsonModel::Number(NumberModel::Decimal(t)))) is None,
        unsigned_in(Some(JsonModel::Number(NumberModel::Decimal(t)))) is None,
        signed_in(Some(JsonModel::Text(t))) is None,
        text_in(Some(JsonModel::Text(t))) == Some(t),
        text_in(Some(JsonModel::Number(NumberModel::Unsigned(n)))) is None,
        is_true(Some(JsonModel::Bool(true))),
        !is_true(Some(JsonModel::Bool(false))),
        !is_true(Some(JsonModel::Text(t))),
        !is_true(None),
{
}

/// Of two values the first counts, and the second only where the first is missing.
pub proof fn law_second_value_stands_in(first: JsonModel, second: Option<JsonModel>)
    ensures
        or_else(Some(first), second) == Some(first),
        or_else(None::<JsonModel>, second) == second,
{
}

} // verus!
