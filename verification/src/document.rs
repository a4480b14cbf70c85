//! JSON documents, as the venues send them.
//!
//! Text is parsed by the `json` crate; what it found is held here as a tree
//! of plain values, and everything that is read off the tree is done here.

use crate::text::same_text;
use vstd::prelude::*;
use vstd::string::StringSliceAdditionalSpecFns;
use vstd::utf8::encode_utf8;

verus! {

/// The most digits in a row that a text may hold to be parsed.
pub const MAX_DIGIT_RUN: usize = 0x7fff;

/// A JSON value.
#[derive(Debug)]
pub enum Json {
    /// `null`.
    Null,
    /// `true` or `false`.
    Flag(bool),
    /// A number `mantissa * 10^exponent`, negative where `positive` is not
    /// set.
    Number { positive: bool, mantissa: u64, exponent: i16 },
    /// A string.
    Text(String),
    /// An array, its members in the order of the document.
    Array(Vec<Json>),
    /// An object, its members in the order of the document.
    Object(Vec<(String, Json)>),
}

/// The value type of the `json` crate, carried from its parser to the
/// conversion into a [`Json`] without being looked into.
#[verifier::external_type_specification]
#[verifier::external_body]
pub struct ExJsonValue(json::JsonValue);

/// What the `json` crate parses `text` into, or `None` where it refuses the
/// text.
pub uninterp spec fn json_reading(text: Seq<char>) -> Option<Json>;

/// The tree of plain values that a value of the `json` crate holds.
pub uninterp spec fn json_tree(value: json::JsonValue) -> Json;

/// How the `json` crate prints the number that it builds from a sign, a
/// mantissa and an exponent.
pub uninterp spec fn json_number_text(positive: bool, mantissa: u64, exponent: i16) -> Seq<char>;

/// Whether the byte is an ASCII digit.
pub open spec fn is_digit(byte: u8) -> bool {
    0x30 <= byte <= 0x39
}

/// How many digits stand at the end of `bytes`.
pub open spec fn trailing_digits(bytes: Seq<u8>) -> nat
    decreases bytes.len(),
{
    if bytes.len() == 0 {
        0
    } else if is_digit(bytes.last()) {
        1 + trailing_digits(bytes.drop_last())
    } else {
        0
    }
}

/// No more than [`MAX_DIGIT_RUN`] digits stand in a row anywhere in `bytes`.
/// A parsed number then has an exponent that fits in 16 bits.
pub open spec fn short_digit_runs(bytes: Seq<u8>) -> bool
    decreases bytes.len(),
{
    bytes.len() == 0 || (trailing_digits(bytes) <= MAX_DIGIT_RUN && short_digit_runs(
        bytes.drop_last(),
    ))
}

/// The text can be parsed as JSON.
pub open spec fn parseable(text: Seq<char>) -> bool {
    short_digit_runs(encode_utf8(text)) && json_reading(text) is Some
}

/// The value of the first member of `members` under `key`.
pub open spec fn lookup(members: Seq<(String, Json)>, key: Seq<char>) -> Option<Json>
    decreases members.len(),
{
    if members.len() == 0 {
        None
    } else if members[0].0@ == key {
        Some(members[0].1)
    } else {
        lookup(members.drop_first(), key)
    }
}

/// Whether no more than [`MAX_DIGIT_RUN`] digits stand in a row in `text`.
fn has_short_digit_runs(text: &str) -> (r: bool)
    ensures
        r == short_digit_runs(text.spec_bytes()),
{
    let bytes = text.as_bytes();
    let n = bytes.len();
    let mut run: usize = 0;
    let mut i: usize = 0;
    assert(bytes@.take(0).len() == 0);
    while i < n
        invariant
            i <= n,
            n == bytes@.len(),
            bytes@ == text.spec_bytes(),
            run == trailing_digits(bytes@.take(i as int)),
            run <= MAX_DIGIT_RUN,
            short_digit_runs(bytes@.take(i as int)),
        decreases n - i,
    {
        proof {
            assert(bytes@.take(i + 1).drop_last() =~= bytes@.take(i as int));
            assert(bytes@.take(i + 1).last() == bytes@[i as int]);
        }
        if 0x30 <= bytes[i] && bytes[i] <= 0x39 {
            if run == MAX_DIGIT_RUN {
                proof {
                    let longer = bytes@.take(i + 1);
                    assert(trailing_digits(longer) == 1 + trailing_digits(longer.drop_last()));
                    assert(!short_digit_runs(longer));
                    lemma_long_run(bytes@, i + 1);
                }
                return false;
            }
            run += 1;
        } else {
            run = 0;
        }
        i += 1;
    }
    assert(bytes@.take(n as int) =~= bytes@);
    true
}

/// Once a prefix holds too long a run of digits, so does the whole.
proof fn lemma_long_run(bytes: Seq<u8>, k: int)
    requires
        0 <= k <= bytes.len(),
        !short_digit_runs(bytes.take(k)),
    ensures
        !short_digit_runs(bytes),
    decreases bytes.len() - k,
{
    if k < bytes.len() {
        assert(bytes.drop_last().take(k) =~= bytes.take(k));
        lemma_long_run(bytes.drop_last(), k);
    } else {
        assert(bytes.take(k) =~= bytes);
    }
}

/// Parses `text` with `json::parse`. The contract claims that the result is
/// a function of the text alone: the tree of what comes back
/// ([`json_tree`]) is what [`json_reading`] names. A text with a very long
/// run of digits is left out: there the parser's count of fraction digits
/// can overflow.
#[verifier::external_body]
fn read_json(text: &str) -> (r: Option<json::JsonValue>)
    requires
        short_digit_runs(text.spec_bytes()),
    ensures
        r is Some <==> json_reading(text@) is Some,
        r matches Some(value) ==> json_reading(text@) == Some(json_tree(value)),
{
    match json::parse(text) {
        Ok(value) => Some(value),
        Err(_) => None,
    }
}

/// Turns a value of the `json` crate into a [`Json`], variant by variant:
/// the two kinds of string become `Text`, a number is taken apart into its
/// sign, mantissa and exponent with `Number::as_parts`, and the members of
/// arrays and objects are turned in their order. The contract gives the
/// result its name ([`json_tree`]).
#[verifier::external_body]
fn lift(value: &json::JsonValue) -> (r: Json)
    ensures
        r == json_tree(*value),
{
    match value {
        json::JsonValue::Null => Json::Null,
        json::JsonValue::Short(s) => Json::Text(s.to_string()),
        json::JsonValue::String(s) => Json::Text(s.clone()),
        json::JsonValue::Number(n) => {
            let (positive, mantissa, exponent) = n.as_parts();
            Json::Number { positive, mantissa, exponent }
        },
        json::JsonValue::Boolean(b) => Json::Flag(*b),
        json::JsonValue::Object(o) => Json::Object(
            o.iter().map(|(k, v)| (k.to_string(), lift(v))).collect(),
        ),
        json::JsonValue::Array(a) => Json::Array(a.iter().map(lift).collect()),
    }
}

/// Prints a number with the `json` crate's `Display` for `Number`, after
/// building it with `Number::from_parts`. The contract claims that the text
/// is a function of the number's three parts ([`json_number_text`]).
#[verifier::external_body]
fn number_text(positive: bool, mantissa: u64, exponent: i16) -> (r: String)
    ensures
        r@ == json_number_text(positive, mantissa, exponent),
{
    json::number::Number::from_parts(positive, mantissa, exponent).to_string()
}

impl Json {
    /// Parses a JSON document. A text with more than [`MAX_DIGIT_RUN`]
    /// digits in a row is refused like one that is no JSON.
    pub fn parse(text: &str) -> (r: Option<Json>)
        ensures
            r is Some <==> parseable(text@),
            r is Some ==> r == json_reading(text@),
    {
        if has_short_digit_runs(text) {
            match read_json(text) {
                Some(value) => Some(lift(&value)),
                None => None,
            }
        } else {
            None
        }
    }

    /// The value is an array.
    pub open spec fn spec_is_array(self) -> bool {
        self is Array
    }

    /// Whether the value is an array.
    pub fn is_array(&self) -> (r: bool)
        ensures
            r == self.spec_is_array(),
    {
        match self {
            Json::Array(_) => true,
            _ => false,
        }
    }

    /// The members of an array or an object; other values have none.
    pub open spec fn spec_len(self) -> nat {
        match self {
            Json::Array(items) => items@.len(),
            Json::Object(members) => members@.len(),
            _ => 0,
        }
    }

    /// How many members an array or an object has; 0 for other values.
    pub fn len(&self) -> (r: usize)
        ensures
            r == self.spec_len(),
    {
        match self {
            Json::Array(items) => items.len(),
            Json::Object(members) => members.len(),
            _ => 0,
        }
    }

    /// The members of an array; other values have none.
    pub open spec fn spec_items(self) -> Seq<Json> {
        match self {
            Json::Array(items) => items@,
            _ => Seq::empty(),
        }
    }

    /// The member of an array at `index`.
    pub open spec fn spec_item(self, index: int) -> Option<Json> {
        match self {
            Json::Array(items) => if 0 <= index < items@.len() {
                Some(items@[index])
            } else {
                None
            },
            _ => None,
        }
    }

    /// The member of an array at `index`; `None` past its end and for other
    /// values.
    pub fn item(&self, index: usize) -> (r: Option<&Json>)
        ensures
            r is Some <==> self.spec_item(index as int) is Some,
            r matches Some(j) ==> *j == self.spec_item(index as int)->0,
    {
        match self {
            Json::Array(items) => if index < items.len() {
                Some(&items[index])
            } else {
                None
            },
            _ => None,
        }
    }

    /// The member of an object under `key`.
    pub open spec fn spec_field(self, key: Seq<char>) -> Option<Json> {
        match self {
            Json::Object(members) => lookup(members@, key),
            _ => None,
        }
    }

    /// The member of an object under `key`; `None` where it has none and
    /// for other values.
    pub fn field(&self, key: &str) -> (r: Option<&Json>)
        ensures
            r is Some <==> self.spec_field(key@) is Some,
            r matches Some(j) ==> *j == self.spec_field(key@)->0,
    {
        match self {
            Json::Object(members) => {
                let mut i: usize = 0;
                assert(members@.skip(0) =~= members@);
                while i < members.len()
                    invariant
                        i <= members.len(),
                        self.spec_field(key@) == lookup(members@, key@),
                        lookup(members@, key@) == lookup(members@.skip(i as int), key@),
                    decreases members.len() - i,
                {
                    let ghost rest = members@.skip(i as int);
                    assert(rest.drop_first() =~= members@.skip(i + 1));
                    assert(rest.len() > 0 && rest[0] == members@[i as int]);
                    if same_text(members[i].0.as_str(), key) {
                        assert(lookup(rest, key@) == Some(rest[0].1));
                        return Some(&members[i].1);
                    }
                    assert(lookup(rest, key@) == lookup(rest.drop_first(), key@));
                    i += 1;
                }
                None
            },
            _ => None,
        }
    }

    /// The whole number that the value is: a positive number without an
    /// exponent.
    pub open spec fn spec_as_u64(self) -> Option<u64> {
        match self {
            Json::Number { positive, mantissa, exponent } => if positive && exponent == 0 {
                Some(mantissa)
            } else {
                None
            },
            _ => None,
        }
    }

    /// The value as a whole number, where it is a positive number written
    /// without fraction or exponent.
    pub fn as_u64(&self) -> (r: Option<u64>)
        ensures
            r == self.spec_as_u64(),
    {
        match self {
            Json::Number { positive, mantissa, exponent } => if *positive && *exponent == 0 {
                Some(*mantissa)
            } else {
                None
            },
            _ => None,
        }
    }

    /// The value is the string `text`.
    pub open spec fn spec_is_text(self, text: Seq<char>) -> bool {
        match self {
            Json::Text(s) => s@ == text,
            _ => false,
        }
    }

    /// Whether the value is the string `text`.
    pub fn is_text(&self, text: &str) -> (r: bool)
        ensures
            r == self.spec_is_text(text@),
    {
        match self {
            Json::Text(s) => same_text(s.as_str(), text),
            _ => false,
        }
    }

    /// The text of a string, or a number as the document's parser prints
    /// it; other values have none.
    pub open spec fn spec_scalar_text(self) -> Option<Seq<char>> {
        match self {
            Json::Text(s) => Some(s@),
            Json::Number { positive, mantissa, exponent } => Some(
                json_number_text(positive, mantissa, exponent),
            ),
            _ => None,
        }
    }

    /// The text of a string or of a number; `None` for other values.
    pub fn scalar_text(&self) -> (r: Option<String>)
        ensures
            r is Some <==> self.spec_scalar_text() is Some,
            r matches Some(s) ==> s@ == self.spec_scalar_text()->0,
    {
        match self {
            Json::Text(s) => Some(s.clone()),
            Json::Number { positive, mantissa, exponent } => Some(
                number_text(*positive, *mantissa, *exponent),
            ),
            _ => None,
        }
    }
}

} // verus!
