//! JSON documents as the decoders read them.
use crate::error::Error;
use crate::number::Real;
use crate::text::same_text;
use vstd::prelude::*;

verus! {

/// A JSON value. A number keeps its text, except that an unsigned integer is kept as such.
#[derive(Debug)]
pub enum Json {
    Null,
    Bool(bool),
    Unsigned(u64),
    Number(String),
    Text(String),
    Array(Vec<Json>),
    Object(Vec<(String, Json)>),
}

/// The value of a field, from the `i`th on, if there is one of that name.
pub open spec fn field_from(fields: Seq<(String, Json)>, key: Seq<char>, i: int) -> Option<Json>
    decreases fields.len() - i,
{
    if i < 0 || i >= fields.len() {
        None
    } else if fields[i].0@ == key {
        Some(fields[i].1)
    } else {
        field_from(fields, key, i + 1)
    }
}

impl Json {
    /// The value of a member, if this is an object that has it.
    pub open spec fn member(self, key: Seq<char>) -> Option<Json> {
        match self {
            Json::Object(fields) => field_from(fields@, key, 0),
            _ => None,
        }
    }

    /// The value of a member, or null.
    pub open spec fn at(self, key: Seq<char>) -> Json {
        match self.member(key) {
            Some(j) => j,
            None => Json::Null,
        }
    }

    /// The value of an item, or null.
    pub open spec fn nth(self, i: int) -> Json {
        match self {
            Json::Array(items) => if 0 <= i < items.len() {
                items[i]
            } else {
                Json::Null
            },
            _ => Json::Null,
        }
    }

    /// The text, if this is one.
    pub open spec fn text(self) -> Option<Seq<char>> {
        match self {
            Json::Text(s) => Some(s@),
            _ => None,
        }
    }

    /// The items, if this is an array.
    pub open spec fn items(self) -> Option<Seq<Json>> {
        match self {
            Json::Array(items) => Some(items@),
            _ => None,
        }
    }

    /// The unsigned integer, if this is one.
    pub open spec fn unsigned(self) -> Option<u64> {
        match self {
            Json::Unsigned(n) => Some(n),
            _ => None,
        }
    }

    /// The truth value, if this is one.
    pub open spec fn flag(self) -> Option<bool> {
        match self {
            Json::Bool(b) => Some(b),
            _ => None,
        }
    }

    /// Whether this is a given text.
    pub open spec fn is_text(self, text: Seq<char>) -> bool {
        self.text() == Some(text)
    }

    /// The value of a member, if this is an object that has it.
    pub fn get(&self, key: &str) -> (r: Option<&Json>)
        ensures
            match self.member(key@) {
                Some(j) => r is Some && *r->0 == j,
                None => r is None,
            },
    {
        match self {
            Json::Object(fields) => {
                let mut i: usize = 0;
                while i < fields.len()
                    invariant
                        i <= fields.len(),
                        field_from(fields@, key@, 0) == field_from(fields@, key@, i as int),
                        *self == Json::Object(*fields),
                    decreases fields.len() - i,
                {
                    if same_text(fields[i].0.as_str(), key) {
                        return Some(&fields[i].1);
                    }
                    i = i + 1;
                }
                None
            },
            _ => None,
        }
    }

    /// An item, if this is an array that has it.
    pub fn item(&self, i: usize) -> (r: Option<&Json>)
        ensures
            match r {
                Some(j) => *j == self.nth(i as int),
                None => self.nth(i as int) == Json::Null,
            },
    {
        match self {
            Json::Array(items) => if i < items.len() {
                Some(&items[i])
            } else {
                None
            },
            _ => None,
        }
    }

    /// The text of a member, if this is an object that has it and it is a text.
    pub fn get_text(&self, key: &str) -> (r: Option<&String>)
        ensures
            match self.at(key@) {
                Json::Text(s) => r is Some && *r->0 == s,
                _ => r is None,
            },
    {
        match self.get(key) {
            Some(Json::Text(s)) => Some(s),
            _ => None,
        }
    }

    /// The items of a member, if this is an object that has it and it is an array.
    pub fn get_items(&self, key: &str) -> (r: Option<&Vec<Json>>)
        ensures
            match self.at(key@).items() {
                Some(items) => r is Some && r->0@ == items,
                None => r is None,
            },
    {
        match self.get(key) {
            Some(Json::Array(items)) => Some(items),
            _ => None,
        }
    }

    /// The unsigned integer of a member, if this is an object that has it and it is one.
    pub fn get_unsigned(&self, key: &str) -> (r: Option<u64>)
        ensures
            r == self.at(key@).unsigned(),
    {
        match self.get(key) {
            Some(Json::Unsigned(n)) => Some(*n),
            _ => None,
        }
    }

    /// The truth value of a member, if this is an object that has it and it is one.
    pub fn get_flag(&self, key: &str) -> (r: Option<bool>)
        ensures
            r == self.at(key@).flag(),
    {
        match self.get(key) {
            Some(Json::Bool(b)) => Some(*b),
            _ => None,
        }
    }

    /// Whether a member is a given text.
    pub fn says(&self, key: &str, text: &str) -> (r: bool)
        ensures
            r == self.at(key@).is_text(text@),
    {
        match self.get_text(key) {
            Some(s) => same_text(s.as_str(), text),
            None => false,
        }
    }
}

/// A parsed document of the `serde_json` crate.
#[verifier::external_type_specification]
#[verifier::external_body]
pub struct ExDocument(serde_json::Value);

/// What a parsed document holds.
pub uninterp spec fn contents(document: serde_json::Value) -> Json;

/// The document that a text is, if it is well formed.
pub uninterp spec fn json_of(text: Seq<char>) -> Option<Json>;

/// Calls `serde_json::from_str`. Claims that whether the text is a document, and which, depends on
/// the text alone.
#[verifier::external_body]
fn parse_document(text: &str) -> (r: Option<serde_json::Value>)
    ensures
        match r {
            Some(document) => json_of(text@) == Some(contents(document)),
            None => json_of(text@) is None,
        },
{
    serde_json::from_str(text).ok()
}

/// Takes a `serde_json::Value` apart, one variant at a time. Claims that the result is what the
/// document holds.
#[verifier::external_body]
fn open_document(document: serde_json::Value) -> (r: Json)
    ensures
        r == contents(document),
{
    match document {
        serde_json::Value::Null => Json::Null,
        serde_json::Value::Bool(b) => Json::Bool(b),
        serde_json::Value::Number(n) => match n.as_u64() {
            Some(u) => Json::Unsigned(u),
            None => Json::Number(n.to_string()),
        },
        serde_json::Value::String(s) => Json::Text(s),
        serde_json::Value::Array(items) => Json::Array(items.into_iter().map(open_document).collect()),
        serde_json::Value::Object(fields) => Json::Object(
            fields.into_iter().map(|(k, v)| (k, open_document(v))).collect(),
        ),
    }
}

/// The document that a text is.
pub fn read_json(text: &str) -> (r: Result<Json, Error>)
    ensures
        match json_of(text@) {
            Some(j) => r == Ok::<Json, Error>(j),
            None => r == Err::<Json, Error>(Error::MalformedText),
        },
{
    match parse_document(text) {
        Some(document) => Ok(open_document(document)),
        None => Err(Error::MalformedText),
    }
}

/// What the first `n` parts give together: the lists that they give, one after another, or the
/// first refusal.
pub open spec fn gathered<T>(n: nat, part: spec_fn(int) -> Result<Seq<T>, Error>) -> Result<
    Seq<T>,
    Error,
>
    decreases n,
{
    if n == 0 {
        Ok(Seq::empty())
    } else {
        match gathered((n - 1) as nat, part) {
            Err(fault) => Err(fault),
            Ok(first) => match part(n - 1) {
                Err(fault) => Err(fault),
                Ok(last) => Ok(first + last),
            },
        }
    }
}

/// Parts behind a refusal change nothing.
pub proof fn lemma_gathered_stops<T>(n: nat, m: nat, part: spec_fn(int) -> Result<Seq<T>, Error>)
    requires
        n <= m,
        gathered(n, part) is Err,
    ensures
        gathered(m, part) == gathered(n, part),
    decreases m,
{
    if n < m {
        lemma_gathered_stops(n, (m - 1) as nat, part);
    }
}

/// The finite number that a value denotes, as a number or as a text.
pub open spec fn number_of<R: Real>(j: Json) -> Result<R, Error> {
    let n = match j {
        Json::Text(s) => match R::spec_parse(&s) {
            Some(x) => Ok(x),
            None => Err(Error::InvalidNumber),
        },
        Json::Number(s) => match R::spec_parse(&s) {
            Some(x) => Ok(x),
            None => Err(Error::MissingNumber),
        },
        Json::Unsigned(u) => Ok(R::spec_from_u64(u)),
        _ => Err(Error::MissingNumber),
    };
    match n {
        Ok(x) => if x.spec_is_finite() {
            Ok(x)
        } else {
            Err(Error::NonfiniteNumber)
        },
        Err(fault) => Err(fault),
    }
}

/// The finite number that a value denotes, as a number or as a text.
pub fn read_number<R: Real>(j: &Json) -> (r: Result<R, Error>)
    ensures
        r == number_of::<R>(*j),
{
    let x: R = match j {
        Json::Text(s) => match R::parse(s) {
            Some(x) => x,
            None => return Err(Error::InvalidNumber),
        },
        Json::Number(s) => match R::parse(s) {
            Some(x) => x,
            None => return Err(Error::MissingNumber),
        },
        Json::Unsigned(u) => R::from_u64(*u),
        _ => return Err(Error::MissingNumber),
    };
    if x.is_finite() {
        Ok(x)
    } else {
        Err(Error::NonfiniteNumber)
    }
}

/// The finite number that a member denotes.
pub fn number_at<R: Real>(j: &Json, key: &str) -> (r: Result<R, Error>)
    ensures
        r == number_of::<R>(j.at(key@)),
{
    match j.get(key) {
        Some(v) => read_number(v),
        None => Err(Error::MissingNumber),
    }
}

/// The unsigned integer that a value is.
pub open spec fn integer_of(j: Json) -> Result<u64, Error> {
    match j.unsigned() {
        Some(n) => Ok(n),
        None => Err(Error::MissingInteger),
    }
}

/// The unsigned integer that a member is.
pub fn integer_at(j: &Json, key: &str) -> (r: Result<u64, Error>)
    ensures
        r == integer_of(j.at(key@)),
{
    match j.get_unsigned(key) {
        Some(n) => Ok(n),
        None => Err(Error::MissingInteger),
    }
}

} // verus!
