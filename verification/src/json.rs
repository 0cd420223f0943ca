//! JSON documents.

use crate::sorted::Replica;
use crate::text::{
    bool_text, chars_of, decimal, digit, digit_char, pair_replaced, replace_pair, split_at_mark, split_text, text_lt,
    text_of, text_same,
};
use vstd::prelude::*;
use vstd::string::*;

verus! {

/// A JSON number: its canonical notation, and its value where that is an
/// unsigned 64-bit integer.
#[derive(Debug, PartialEq)]
pub struct JsonNumber {
    pub text: String,
    pub unsigned: Option<u64>,
}

/// A JSON value. The fields of an object come in ascending key order.
#[derive(Debug)]
pub enum Json {
    Null,
    Bool(bool),
    Number(JsonNumber),
    String(String),
    Array(Vec<Json>),
    Object(Vec<(String, Json)>),
}

#[verifier::ext_equal]
pub struct NumberModel {
    pub text: Seq<char>,
    pub unsigned: Option<u64>,
}

#[verifier::ext_equal]
pub enum JsonModel {
    Null,
    Bool(bool),
    Number(NumberModel),
    String(Seq<char>),
    Array(Seq<JsonModel>),
    Object(Seq<(Seq<char>, JsonModel)>),
}

impl DeepView for JsonNumber {
    type V = NumberModel;

    open spec fn deep_view(&self) -> NumberModel {
        NumberModel { text: self.text@, unsigned: self.unsigned }
    }
}

/// What a JSON value stands for.
pub open spec fn json_model(value: Json) -> JsonModel
    decreases value,
{
    match value {
        Json::Null => JsonModel::Null,
        Json::Bool(b) => JsonModel::Bool(b),
        Json::Number(n) => JsonModel::Number(n.deep_view()),
        Json::String(s) => JsonModel::String(s@),
        Json::Array(items) => JsonModel::Array(
            Seq::new(
                items@.len(),
                |i: int|
                    if 0 <= i < items@.len() {
                        json_model(items@[i])
                    } else {
                        JsonModel::Null
                    },
            ),
        ),
        Json::Object(fields) => JsonModel::Object(
            Seq::new(
                fields@.len(),
                |i: int|
                    if 0 <= i < fields@.len() {
                        (fields@[i].0@, json_model(fields@[i].1))
                    } else {
                        (Seq::empty(), JsonModel::Null)
                    },
            ),
        ),
    }
}

impl DeepView for Json {
    type V = JsonModel;

    open spec fn deep_view(&self) -> JsonModel {
        json_model(*self)
    }
}

/// The value of the first field named `key`.
pub open spec fn first_field(fields: Seq<(Seq<char>, JsonModel)>, key: Seq<char>) -> Option<
    JsonModel,
>
    decreases fields.len(),
{
    if fields.len() == 0 {
        None
    } else if fields[0].0 == key {
        Some(fields[0].1)
    } else {
        first_field(fields.skip(1), key)
    }
}

/// Both notations are a floating-point zero, of either sign.
pub open spec fn both_zero(a: Seq<char>, b: Seq<char>) -> bool {
    (a == "0.0"@ || a == "-0.0"@) && (b == "0.0"@ || b == "-0.0"@)
}

/// Two numbers are equal: the notation is canonical, so it decides, but for the
/// sign of a floating-point zero.
pub open spec fn same_number(a: NumberModel, b: NumberModel) -> bool {
    a.text == b.text || both_zero(a.text, b.text)
}

/// Two JSON values are equal.
pub open spec fn same_json(a: JsonModel, b: JsonModel) -> bool
    decreases a,
{
    match (a, b) {
        (JsonModel::Null, JsonModel::Null) => true,
        (JsonModel::Bool(x), JsonModel::Bool(y)) => x == y,
        (JsonModel::Number(x), JsonModel::Number(y)) => same_number(x, y),
        (JsonModel::String(x), JsonModel::String(y)) => x == y,
        (JsonModel::Array(x), JsonModel::Array(y)) => x.len() == y.len() && forall|i: int|
            0 <= i < x.len() ==> same_json(#[trigger] x[i], y[i]),
        (JsonModel::Object(x), JsonModel::Object(y)) => x.len() == y.len() && forall|i: int|
            0 <= i < x.len() ==> (#[trigger] x[i]).0 == y[i].0 && same_json(x[i].1, y[i].1),
        _ => false,
    }
}

/// A JSON array index: decimal digits, without a sign and without leading zeros,
/// of a number that a `usize` can hold.
pub open spec fn index_value(digits: Seq<char>) -> Option<nat> {
    if digits.len() == 0 || !(forall|i: int| 0 <= i < digits.len() ==> is_digit(#[trigger] digits[i]))
        || (digits[0] == '0' && digits.len() != 1) || digits_value(digits) > usize::MAX {
        None
    } else {
        Some(digits_value(digits))
    }
}

pub open spec fn is_digit(c: char) -> bool {
    '0' <= c && c <= '9'
}

/// The number that decimal digits denote.
pub open spec fn digits_value(digits: Seq<char>) -> nat
    decreases digits.len(),
{
    if digits.len() == 0 {
        0
    } else {
        (digits_value(digits.drop_last()) * 10 + (digits.last() as nat - '0' as nat)) as nat
    }
}

/// A reference token of a JSON pointer with its escapes undone.
pub open spec fn unescaped(token: Seq<char>) -> Seq<char> {
    pair_replaced(pair_replaced(token, '~', '1', '/'), '~', '0', '~')
}

impl JsonModel {
    /// The field `key` of an object; nothing else has fields.
    pub open spec fn field(self, key: Seq<char>) -> Option<JsonModel> {
        match self {
            JsonModel::Object(fields) => first_field(fields, key),
            _ => None,
        }
    }

    /// The text of the string in field `key`.
    pub open spec fn text_field(self, key: Seq<char>) -> Option<Seq<char>> {
        match self.field(key) {
            Some(JsonModel::String(s)) => Some(s),
            _ => None,
        }
    }

    /// The unsigned integer in field `key`.
    pub open spec fn unsigned_field(self, key: Seq<char>) -> Option<u64> {
        match self.field(key) {
            Some(JsonModel::Number(n)) => n.unsigned,
            _ => None,
        }
    }

    /// The child that one reference token selects.
    pub open spec fn child(self, token: Seq<char>) -> Option<JsonModel> {
        match self {
            JsonModel::Object(fields) => first_field(fields, token),
            JsonModel::Array(items) => match index_value(token) {
                Some(i) => if i < items.len() {
                    Some(items[i as int])
                } else {
                    None
                },
                None => None,
            },
            _ => None,
        }
    }

    /// The value that the first `n` reference tokens lead to.
    pub open spec fn descend(self, tokens: Seq<Seq<char>>, n: nat) -> Option<JsonModel>
        decreases n,
    {
        if n == 0 {
            Some(self)
        } else {
            match self.descend(tokens, (n - 1) as nat) {
                Some(at) => at.child(unescaped(tokens[n - 1])),
                None => None,
            }
        }
    }

    /// The value at a JSON pointer.
    pub open spec fn at_pointer(self, pointer: Seq<char>) -> Option<JsonModel> {
        if pointer.len() == 0 {
            Some(self)
        } else if pointer[0] != '/' {
            None
        } else {
            let tokens = split_at_mark(pointer, '/').skip(1);
            self.descend(tokens, tokens.len())
        }
    }
}

/// The hexadecimal digit for a value below sixteen.
pub open spec fn hex_digit(d: nat) -> char {
    if d < 10 {
        digit(d)
    } else if d == 10 {
        'a'
    } else if d == 11 {
        'b'
    } else if d == 12 {
        'c'
    } else if d == 13 {
        'd'
    } else if d == 14 {
        'e'
    } else {
        'f'
    }
}

/// A character inside a JSON string: quotes, backslashes and control characters are
/// escaped, with a letter where there is one and else by their code.
pub open spec fn json_escaped(c: char) -> Seq<char> {
    let code = c as nat;
    if c == '"' || c == '\\' {
        seq!['\\', c]
    } else if code == 8 {
        seq!['\\', 'b']
    } else if code == 9 {
        seq!['\\', 't']
    } else if code == 10 {
        seq!['\\', 'n']
    } else if code == 12 {
        seq!['\\', 'f']
    } else if code == 13 {
        seq!['\\', 'r']
    } else if code < 32 {
        seq!['\\', 'u', '0', '0', hex_digit(code / 16), hex_digit(code % 16)]
    } else {
        seq![c]
    }
}

/// The text inside a JSON string.
pub open spec fn all_escaped(text: Seq<char>) -> Seq<char>
    decreases text.len(),
{
    if text.len() == 0 {
        Seq::empty()
    } else {
        all_escaped(text.drop_last()) + json_escaped(text.last())
    }
}

/// The text as a JSON string: in quotes, with its escapes.
pub open spec fn json_quoted(text: Seq<char>) -> Seq<char> {
    seq!['"'] + all_escaped(text) + seq!['"']
}

/// Compact JSON text of a value.
pub open spec fn json_text(value: JsonModel) -> Seq<char>
    decreases value, 0nat,
{
    match value {
        JsonModel::Null => "null"@,
        JsonModel::Bool(b) => bool_text(b),
        JsonModel::Number(n) => n.text,
        JsonModel::String(s) => json_quoted(s),
        JsonModel::Array(items) => seq!['['] + items_text(items, items.len()) + seq![']'],
        JsonModel::Object(fields) => seq!['{'] + fields_text(fields, fields.len()) + seq!['}'],
    }
}

/// Compact JSON text of the first `n` items, separated by commas.
pub open spec fn items_text(items: Seq<JsonModel>, n: nat) -> Seq<char>
    decreases items, n,
{
    if n == 0 || n > items.len() {
        Seq::empty()
    } else if n == 1 {
        json_text(items[0])
    } else {
        items_text(items, (n - 1) as nat) + seq![','] + json_text(items[n - 1])
    }
}

/// Compact JSON text of the first `n` fields, separated by commas.
pub open spec fn fields_text(fields: Seq<(Seq<char>, JsonModel)>, n: nat) -> Seq<char>
    decreases fields, n,
{
    if n == 0 || n > fields.len() {
        Seq::empty()
    } else if n == 1 {
        json_quoted(fields[0].0) + seq![':'] + json_text(fields[0].1)
    } else {
        fields_text(fields, (n - 1) as nat) + seq![','] + json_quoted(fields[n - 1].0) + seq![':']
            + json_text(fields[n - 1].1)
    }
}

/// The hexadecimal digit for `d`.
fn hex_char(d: u32) -> (c: char)
    requires
        d < 16,
    ensures
        c == hex_digit(d as nat),
{
    match d {
        10 => 'a',
        11 => 'b',
        12 => 'c',
        13 => 'd',
        14 => 'e',
        15 => 'f',
        _ => digit_char(d as u64),
    }
}

/// Appends a character of a JSON string.
fn push_escaped(out: &mut String, c: char)
    ensures
        final(out)@ == old(out)@ + json_escaped(c),
{
    let ghost was = out@;
    let code: u32 = c as u32;
    if c == '"' || c == '\\' {
        out.push('\\');
        out.push(c);
    } else if code == 8 {
        out.push('\\');
        out.push('b');
    } else if code == 9 {
        out.push('\\');
        out.push('t');
    } else if code == 10 {
        out.push('\\');
        out.push('n');
    } else if code == 12 {
        out.push('\\');
        out.push('f');
    } else if code == 13 {
        out.push('\\');
        out.push('r');
    } else if code < 32 {
        out.push('\\');
        out.push('u');
        out.push('0');
        out.push('0');
        out.push(hex_char(code / 16));
        out.push(hex_char(code % 16));
    } else {
        out.push(c);
    }
    assert(out@ =~= was + json_escaped(c));
}

/// The text as a JSON string.
fn quote_json(text: &str) -> (r: String)
    ensures
        r@ == json_quoted(text@),
{
    let mut out = String::new();
    out.push('"');
    assert(out@ =~= seq!['"'] + all_escaped(text@.take(0)));
    for c in it: text.chars()
        invariant
            it.seq() == text@,
            out@ == seq!['"'] + all_escaped(text@.take(it.index())),
    {
        let ghost before = text@.take(it.index());
        let ghost next = text@.take(it.index() + 1);
        assert(next.drop_last() =~= before);
        assert(next.last() == c);
        push_escaped(&mut out, c);
        assert(out@ =~= seq!['"'] + all_escaped(next));
    }
    assert(text@.take(text@.len() as int) =~= text@);
    out.push('"');
    out
}

impl Replica for JsonNumber {
    fn replica(&self) -> (r: Self) {
        JsonNumber { text: self.text.clone(), unsigned: self.unsigned }
    }
}

impl Clone for JsonNumber {
    fn clone(&self) -> (r: Self)
        ensures
            r.deep_view() == self.deep_view(),
    {
        self.replica()
    }
}

fn replica_json(value: &Json) -> (r: Json)
    ensures
        json_model(r) == json_model(*value),
    decreases value,
{
    match value {
        Json::Null => Json::Null,
        Json::Bool(b) => Json::Bool(*b),
        Json::Number(n) => Json::Number(n.replica()),
        Json::String(s) => Json::String(s.clone()),
        Json::Array(items) => {
            let mut out: Vec<Json> = Vec::new();
            let mut i: usize = 0;
            while i < items.len()
                invariant
                    i <= items.len(),
                    out.len() == i,
                    forall|j: int| 0 <= j < i ==> json_model(#[trigger] out@[j]) == json_model(items@[j]),
                    decreases_to!(*value => items@),
                decreases items.len() - i,
            {
                assert(decreases_to!(items@ => items@[i as int]));
                let copy = replica_json(&items[i]);
                out.push(copy);
                i += 1;
            }
            let r = Json::Array(out);
            assert(json_model(r)->Array_0 =~= json_model(*value)->Array_0);
            r
        },
        Json::Object(fields) => {
            let mut out: Vec<(String, Json)> = Vec::new();
            let mut i: usize = 0;
            while i < fields.len()
                invariant
                    i <= fields.len(),
                    out.len() == i,
                    forall|j: int| 0 <= j < i ==> (#[trigger] out@[j]).0@ == fields@[j].0@
                        && json_model(out@[j].1) == json_model(fields@[j].1),
                    decreases_to!(*value => fields@),
                decreases fields.len() - i,
            {
                assert(decreases_to!(fields@ => fields@[i as int]));
                assert(decreases_to!(fields@[i as int] => fields@[i as int].1));
                let copy = replica_json(&fields[i].1);
                out.push((fields[i].0.clone(), copy));
                i += 1;
            }
            let r = Json::Object(out);
            assert(json_model(r)->Object_0 =~= json_model(*value)->Object_0);
            r
        },
    }
}

impl Replica for Json {
    fn replica(&self) -> (r: Self) {
        replica_json(self)
    }
}

impl Clone for Json {
    fn clone(&self) -> (r: Self)
        ensures
            r.deep_view() == self.deep_view(),
    {
        replica_json(self)
    }
}

proof fn lemma_field_step(fields: Seq<(Seq<char>, JsonModel)>, key: Seq<char>, i: int)
    requires
        0 <= i < fields.len(),
    ensures
        first_field(fields.skip(i), key) == (if fields[i].0 == key {
            Some(fields[i].1)
        } else {
            first_field(fields.skip(i + 1), key)
        }),
{
    assert(fields.skip(i)[0] == fields[i]);
    assert(fields.skip(i).skip(1) =~= fields.skip(i + 1));
}

/// Parses a JSON array index.
fn parse_index(digits: &Vec<char>) -> (r: Option<usize>)
    ensures
        match r {
            Some(i) => index_value(digits@) == Some(i as nat),
            None => index_value(digits@) is None,
        },
{
    let n: usize = digits.len();
    if n == 0 || (digits[0] == '0' && n != 1) {
        return None;
    }
    let mut value: usize = 0;
    let mut fits: bool = true;
    let mut i: usize = 0;
    while i < n
        invariant
            i <= n,
            n == digits.len(),
            forall|j: int| 0 <= j < i ==> is_digit(#[trigger] digits@[j]),
            fits ==> value == digits_value(digits@.take(i as int)),
            !fits ==> digits_value(digits@.take(i as int)) > usize::MAX,
        decreases n - i,
    {
        let c = digits[i];
        if !('0' <= c && c <= '9') {
            assert(!is_digit(digits@[i as int]));
            return None;
        }
        let d: usize = (c as u32 - '0' as u32) as usize;
        proof {
            let next = digits@.take(i + 1);
            assert(next.drop_last() =~= digits@.take(i as int));
            assert(next.last() == c);
        }
        match value.checked_mul(10) {
            Some(tenfold) => match tenfold.checked_add(d) {
                Some(sum) => {
                    value = sum;
                },
                None => {
                    fits = false;
                },
            },
            None => {
                fits = false;
            },
        }
        i += 1;
    }
    assert(digits@.take(i as int) =~= digits@);
    if fits {
        Some(value)
    } else {
        None
    }
}

impl Json {
    /// The field `key` of an object.
    pub fn get(&self, key: &str) -> (r: Option<&Json>)
        ensures
            match r {
                Some(v) => self.deep_view().field(key@) == Some(v.deep_view()),
                None => self.deep_view().field(key@) is None,
            },
    {
        match self {
            Json::Object(fields) => {
                let ghost model = self.deep_view()->Object_0;
                let mut i: usize = 0;
                assert(model.skip(0) =~= model);
                while i < fields.len()
                    invariant
                        i <= fields.len(),
                        self.deep_view() == JsonModel::Object(model),
                        model.len() == fields.len(),
                        forall|j: int|
                            0 <= j < fields.len() ==> #[trigger] model[j] == (
                                fields@[j].0@,
                                json_model(fields@[j].1),
                            ),
                        first_field(model, key@) == first_field(model.skip(i as int), key@),
                    decreases fields.len() - i,
                {
                    proof {
                        lemma_field_step(model, key@, i as int);
                    }
                    if text_same(fields[i].0.as_str(), key) {
                        return Some(&fields[i].1);
                    }
                    i += 1;
                }
                None
            },
            _ => None,
        }
    }

    /// The text of a JSON string.
    pub fn as_str(&self) -> (r: Option<&String>)
        ensures
            match r {
                Some(s) => self.deep_view() == JsonModel::String(s@),
                None => !(self.deep_view() is String),
            },
    {
        match self {
            Json::String(s) => Some(s),
            _ => None,
        }
    }

    /// The value of a JSON number that is an unsigned 64-bit integer.
    pub fn as_u64(&self) -> (r: Option<u64>)
        ensures
            r == (match self.deep_view() {
                JsonModel::Number(n) => n.unsigned,
                _ => None,
            }),
    {
        match self {
            Json::Number(n) => n.unsigned,
            _ => None,
        }
    }

    /// The text of the string in field `key`.
    pub fn text_field(&self, key: &str) -> (r: Option<String>)
        ensures
            r.deep_view() == self.deep_view().text_field(key@),
    {
        match self.get(key) {
            Some(v) => match v.as_str() {
                Some(s) => Some(s.clone()),
                None => None,
            },
            None => None,
        }
    }

    /// The unsigned integer in field `key`.
    pub fn unsigned_field(&self, key: &str) -> (r: Option<u64>)
        ensures
            r == self.deep_view().unsigned_field(key@),
    {
        match self.get(key) {
            Some(v) => v.as_u64(),
            None => None,
        }
    }

    /// The child that one reference token of a pointer selects.
    fn child(&self, token: &Vec<char>) -> (r: Option<&Json>)
        ensures
            match r {
                Some(v) => self.deep_view().child(token@) == Some(v.deep_view()),
                None => self.deep_view().child(token@) is None,
            },
    {
        match self {
            Json::Object(_) => self.get(text_of(token).as_str()),
            Json::Array(items) => match parse_index(token) {
                Some(i) => if i < items.len() {
                    assert(self.deep_view()->Array_0[i as int] == items@[i as int].deep_view());
                    Some(&items[i])
                } else {
                    None
                },
                None => None,
            },
            _ => None,
        }
    }

    /// The value at a JSON pointer.
    pub fn pointer(&self, pointer: &str) -> (r: Option<&Json>)
        ensures
            match r {
                Some(v) => self.deep_view().at_pointer(pointer@) == Some(v.deep_view()),
                None => self.deep_view().at_pointer(pointer@) is None,
            },
    {
        let chars = chars_of(pointer);
        if chars.len() == 0 {
            return Some(self);
        }
        if chars[0] != '/' {
            return None;
        }
        let tokens = split_text(&chars, '/');
        let ghost all = split_at_mark(pointer@, '/');
        let ghost rest = all.skip(1);
        let ghost root = self.deep_view();
        let mut at: &Json = self;
        let mut i: usize = 1;
        while i < tokens.len()
            invariant
                1 <= i <= tokens.len(),
                tokens.deep_view() == all,
                rest == all.skip(1),
                root == self.deep_view(),
                all == split_at_mark(pointer@, '/'),
                pointer@.len() > 0,
                pointer@[0] == '/',
                root.descend(rest, (i - 1) as nat) == Some(at.deep_view()),
            decreases tokens.len() - i,
        {
            let once = replace_pair(&tokens[i], '~', '1', '/');
            let token = replace_pair(&once, '~', '0', '~');
            proof {
                assert(all[i as int] == tokens@[i as int].deep_view());
                assert(tokens@[i as int].deep_view() =~= tokens@[i as int]@);
                assert(rest[i - 1] == tokens@[i as int]@);
                assert(token@ == unescaped(rest[i - 1]));
            }
            match at.child(&token) {
                Some(next) => {
                    at = next;
                },
                None => {
                    proof {
                        assert(root.descend(rest, i as nat) is None);
                        lemma_lost(root, rest, i as nat, rest.len());
                    }
                    return None;
                },
            }
            i += 1;
        }
        Some(at)
    }

    /// Equality of JSON values.
    pub fn same(&self, other: &Json) -> (r: bool)
        ensures
            r == same_json(self.deep_view(), other.deep_view()),
        decreases self,
    {
        match (self, other) {
            (Json::Null, Json::Null) => true,
            (Json::Bool(a), Json::Bool(b)) => *a == *b,
            (Json::Number(a), Json::Number(b)) => {
                a.text == b.text || ((text_same(a.text.as_str(), "0.0") || text_same(
                    a.text.as_str(),
                    "-0.0",
                )) && (text_same(b.text.as_str(), "0.0") || text_same(b.text.as_str(), "-0.0")))
            },
            (Json::String(a), Json::String(b)) => *a == *b,
            (Json::Array(a), Json::Array(b)) => {
                let ghost ma = self.deep_view()->Array_0;
                let ghost mb = other.deep_view()->Array_0;
                if a.len() != b.len() {
                    return false;
                }
                let mut i: usize = 0;
                while i < a.len()
                    invariant
                        i <= a.len(),
                        a.len() == b.len(),
                        ma.len() == a.len(),
                        mb.len() == b.len(),
                        self.deep_view() == JsonModel::Array(ma),
                        other.deep_view() == JsonModel::Array(mb),
                        forall|j: int| 0 <= j < a.len() ==> #[trigger] ma[j] == a@[j].deep_view(),
                        forall|j: int| 0 <= j < b.len() ==> #[trigger] mb[j] == b@[j].deep_view(),
                        forall|j: int| 0 <= j < i ==> same_json(#[trigger] ma[j], mb[j]),
                        decreases_to!(*self => a@),
                    decreases a.len() - i,
                {
                    assert(decreases_to!(a@ => a@[i as int]));
                    if !a[i].same(&b[i]) {
                        assert(!same_json(ma[i as int], mb[i as int]));
                        return false;
                    }
                    i += 1;
                }
                true
            },
            (Json::Object(a), Json::Object(b)) => {
                let ghost ma = self.deep_view()->Object_0;
                let ghost mb = other.deep_view()->Object_0;
                if a.len() != b.len() {
                    return false;
                }
                let mut i: usize = 0;
                while i < a.len()
                    invariant
                        i <= a.len(),
                        a.len() == b.len(),
                        ma.len() == a.len(),
                        mb.len() == b.len(),
                        self.deep_view() == JsonModel::Object(ma),
                        other.deep_view() == JsonModel::Object(mb),
                        forall|j: int|
                            0 <= j < a.len() ==> #[trigger] ma[j] == (a@[j].0@, a@[j].1.deep_view()),
                        forall|j: int|
                            0 <= j < b.len() ==> #[trigger] mb[j] == (b@[j].0@, b@[j].1.deep_view()),
                        forall|j: int|
                            0 <= j < i ==> (#[trigger] ma[j]).0 == mb[j].0 && same_json(
                                ma[j].1,
                                mb[j].1,
                            ),
                        decreases_to!(*self => a@),
                    decreases a.len() - i,
                {
                    assert(decreases_to!(a@ => a@[i as int]));
                    assert(decreases_to!(a@[i as int] => a@[i as int].1));
                    assert(ma[i as int].0 == a@[i as int].0@);
                    if a[i].0 != b[i].0 {
                        return false;
                    }
                    if !a[i].1.same(&b[i].1) {
                        return false;
                    }
                    i += 1;
                }
                true
            },
            _ => false,
        }
    }

    /// Compact JSON text.
    pub fn to_text(&self) -> (r: String)
        ensures
            r@ == json_text(self.deep_view()),
        decreases self,
    {
        match self {
            Json::Null => "null".to_owned(),
            Json::Bool(b) => if *b {
                "true".to_owned()
            } else {
                "false".to_owned()
            },
            Json::Number(n) => n.text.clone(),
            Json::String(s) => quote_json(s.as_str()),
            Json::Array(items) => {
                let ghost model = self.deep_view()->Array_0;
                let mut out = String::new();
                out.push('[');
                let mut i: usize = 0;
                assert(out@ =~= seq!['['] + items_text(model, 0));
                while i < items.len()
                    invariant
                        i <= items.len(),
                        model.len() == items.len(),
                        forall|j: int|
                            0 <= j < items.len() ==> #[trigger] model[j] == items@[j].deep_view(),
                        out@ == seq!['['] + items_text(model, i as nat),
                        decreases_to!(*self => items@),
                    decreases items.len() - i,
                {
                    assert(decreases_to!(items@ => items@[i as int]));
                    let piece = items[i].to_text();
                    let ghost was = items_text(model, i as nat);
                    if i > 0 {
                        out.push(',');
                    }
                    out.append(piece.as_str());
                    proof {
                        assert(piece@ == json_text(model[i as int]));
                        if i == 0 {
                            assert(was =~= Seq::<char>::empty());
                            assert(out@ =~= seq!['['] + piece@);
                        } else {
                            assert(out@ =~= seq!['['] + (was + seq![','] + piece@));
                        }
                    }
                    i += 1;
                }
                out.push(']');
                assert(out@ =~= seq!['['] + items_text(model, model.len()) + seq![']']);
                out
            },
            Json::Object(fields) => {
                let ghost model = self.deep_view()->Object_0;
                let mut out = String::new();
                out.push('{');
                let mut i: usize = 0;
                assert(out@ =~= seq!['{'] + fields_text(model, 0));
                while i < fields.len()
                    invariant
                        i <= fields.len(),
                        model.len() == fields.len(),
                        forall|j: int|
                            0 <= j < fields.len() ==> #[trigger] model[j] == (
                                fields@[j].0@,
                                fields@[j].1.deep_view(),
                            ),
                        out@ == seq!['{'] + fields_text(model, i as nat),
                        decreases_to!(*self => fields@),
                    decreases fields.len() - i,
                {
                    assert(decreases_to!(fields@ => fields@[i as int]));
                    assert(decreases_to!(fields@[i as int] => fields@[i as int].1));
                    let name = quote_json(fields[i].0.as_str());
                    let piece = fields[i].1.to_text();
                    let ghost was = fields_text(model, i as nat);
                    if i > 0 {
                        out.push(',');
                    }
                    out.append(name.as_str());
                    out.push(':');
                    out.append(piece.as_str());
                    proof {
                        assert(model[i as int].0 == fields@[i as int].0@);
                        if i == 0 {
                            assert(was =~= Seq::<char>::empty());
                            assert(out@ =~= seq!['{'] + (name@ + seq![':'] + piece@));
                        } else {
                            assert(out@ =~= seq!['{'] + (was + seq![','] + name@ + seq![':']
                                + piece@));
                        }
                    }
                    i += 1;
                }
                out.push('}');
                assert(out@ =~= seq!['{'] + fields_text(model, model.len()) + seq!['}']);
                out
            },
        }
    }
}

proof fn lemma_lost(root: JsonModel, tokens: Seq<Seq<char>>, from: nat, to: nat)
    requires
        from <= to,
        root.descend(tokens, from) is None,
    ensures
        root.descend(tokens, to) is None,
    decreases to,
{
    if from < to {
        lemma_lost(root, tokens, from, (to - 1) as nat);
    }
}

impl PartialEq for Json {
    fn eq(&self, other: &Self) -> (r: bool) {
        self.same(other)
    }
}

impl vstd::std_specs::cmp::PartialEqSpecImpl for Json {
    open spec fn obeys_eq_spec() -> bool {
        true
    }

    open spec fn eq_spec(&self, other: &Self) -> bool {
        same_json(self.deep_view(), other.deep_view())
    }
}

/// `serde_json::Value`, a parsed JSON document.
#[verifier::external_type_specification]
#[verifier::external_body]
pub struct ExValue(serde_json::Value);

/// What a parsed `serde_json::Value` holds.
pub uninterp spec fn value_model(value: serde_json::Value) -> JsonModel;

/// What `serde_json::from_str` makes of a text: the document, or the message of
/// its error.
pub uninterp spec fn parsed_json(text: Seq<char>) -> Result<JsonModel, Seq<char>>;

/// One level of a parsed document.
enum Shape {
    Null,
    Bool(bool),
    Number(JsonNumber),
    String(String),
    Array(Vec<serde_json::Value>),
    Object(Vec<(String, serde_json::Value)>),
}

spec fn shape_model(shape: Shape) -> JsonModel {
    match shape {
        Shape::Null => JsonModel::Null,
        Shape::Bool(b) => JsonModel::Bool(b),
        Shape::Number(n) => JsonModel::Number(n.deep_view()),
        Shape::String(s) => JsonModel::String(s@),
        Shape::Array(items) => JsonModel::Array(
            Seq::new(items@.len(), |i: int| value_model(items@[i])),
        ),
        Shape::Object(fields) => JsonModel::Object(
            Seq::new(fields@.len(), |i: int| (fields@[i].0@, value_model(fields@[i].1))),
        ),
    }
}

/// How deep the arrays and objects of a document may be nested to be read back.
pub const DEEPEST_JSON: u64 = 127;

/// Arrays and objects are nested at most `depth` deep.
pub open spec fn nested_within(value: JsonModel, depth: nat) -> bool
    decreases value,
{
    match value {
        JsonModel::Array(items) => {
            &&& depth > 0
            &&& forall|i: int|
                0 <= i < items.len() ==> nested_within(#[trigger] items[i], (depth - 1) as nat)
        },
        JsonModel::Object(fields) => {
            &&& depth > 0
            &&& forall|i: int|
                0 <= i < fields.len() ==> nested_within(
                    (#[trigger] fields[i]).1,
                    (depth - 1) as nat,
                )
        },
        _ => true,
    }
}

/// A document is not nested too deep to be read back.
pub open spec fn is_readable(value: JsonModel) -> bool {
    nested_within(value, DEEPEST_JSON as nat)
}

/// Why a document that is nested too deep cannot be read: the parser's message for its
/// text. A document whose text the parser would take, which is then not made of JSON
/// numbers, is refused all the same.
pub open spec fn refusal_of(value: JsonModel) -> Seq<char> {
    match parsed_json(json_text(value)) {
        Ok(_) => "recursion limit exceeded"@,
        Err(message) => message,
    }
}

/// A number is an integer of 64 bits in decimal notation.
pub open spec fn is_integer(number: NumberModel) -> bool {
    match number.unsigned {
        Some(n) => number.text == decimal(n as nat),
        None => exists|n: nat|
            0 < n <= 0x8000_0000_0000_0000 && number.text == seq!['-'] + #[trigger] decimal(n),
    }
}

/// A document that its text determines: its numbers are integers, the fields of an
/// object come in strictly ascending key order, and arrays and objects are nested at
/// most `depth` deep.
pub open spec fn is_exact(value: JsonModel, depth: nat) -> bool
    decreases value,
{
    match value {
        JsonModel::Number(n) => is_integer(n),
        JsonModel::Array(items) => depth > 0 && forall|i: int|
            0 <= i < items.len() ==> is_exact(#[trigger] items[i], (depth - 1) as nat),
        JsonModel::Object(fields) => {
            &&& depth > 0
            &&& forall|i: int, j: int|
                0 <= i < j < fields.len() ==> text_lt(
                    (#[trigger] fields[i]).0,
                    (#[trigger] fields[j]).0,
                )
            &&& forall|i: int|
                0 <= i < fields.len() ==> is_exact((#[trigger] fields[i]).1, (depth - 1) as nat)
        },
        _ => true,
    }
}

/// A document is read back from its compact text.
pub open spec fn reads_back(text: Seq<char>) -> bool {
    forall|value: JsonModel|
        #[trigger] json_text(value) == text && is_exact(value, DEEPEST_JSON as nat)
            ==> parsed_json(text) == Ok::<JsonModel, Seq<char>>(value)
}

/// `serde_json::from_str` into a `serde_json::Value`: a function of the text
/// alone, named [`parsed_json`]. From the compact text of a document whose numbers
/// are 64-bit integers, whose objects have their keys in ascending order (that of the
/// `BTreeMap` that holds them), and which is nested no deeper than the parser goes
/// (its limit of 128 is the first depth it refuses) it makes that document. Of
/// floating-point numbers nothing is said: the parser may be off in the last place.
#[verifier::external_body]
fn parse_value(text: &str) -> (r: Result<serde_json::Value, String>)
    ensures
        match r {
            Ok(value) => parsed_json(text@) == Ok::<JsonModel, Seq<char>>(value_model(value)),
            Err(message) => parsed_json(text@) == Err::<JsonModel, Seq<char>>(message@),
        },
        forall|value: JsonModel|
            #[trigger] json_text(value) == text@ && is_exact(value, DEEPEST_JSON as nat)
                ==> r is Ok && value_model(r->Ok_0) == value,
{
    serde_json::from_str(text).map_err(|e: serde_json::Error| e.to_string())
}

/// Takes a `serde_json::Value` apart by one level: its variant, with the number's
/// `as_u64` and `Display` text, or its direct children in the order in which its
/// map or array holds them.
#[verifier::external_body]
fn open_value(value: serde_json::Value) -> (shape: Shape)
    ensures
        value_model(value) == shape_model(shape),
{
    match value {
        serde_json::Value::Null => Shape::Null,
        serde_json::Value::Bool(b) => Shape::Bool(b),
        serde_json::Value::Number(n) => {
            Shape::Number(JsonNumber { unsigned: n.as_u64(), text: n.to_string() })
        },
        serde_json::Value::String(s) => Shape::String(s),
        serde_json::Value::Array(items) => Shape::Array(items),
        serde_json::Value::Object(fields) => Shape::Object(fields.into_iter().collect()),
    }
}

/// The document that a parsed value holds.
fn json_of(value: serde_json::Value) -> (r: Json)
    ensures
        r.deep_view() == value_model(value),
    decreases value_model(value),
{
    let ghost model = value_model(value);
    match open_value(value) {
        Shape::Null => Json::Null,
        Shape::Bool(b) => Json::Bool(b),
        Shape::Number(n) => Json::Number(n),
        Shape::String(s) => Json::String(s),
        Shape::Array(items) => {
            let ghost kids = items@;
            let mut out: Vec<Json> = Vec::new();
            for item in it: items.into_iter()
                invariant
                    it.seq() == kids,
                    model == value_model(value),
                    model == JsonModel::Array(Seq::new(kids.len(), |i: int| value_model(kids[i]))),
                    out.len() == it.index(),
                    forall|j: int|
                        0 <= j < it.index() ==> (#[trigger] out@[j]).deep_view() == value_model(kids[j]),
            {
                proof {
                    assert(decreases_to!(model => model->Array_0));
                    assert(decreases_to!(model->Array_0 => model->Array_0[it.index() as int]));
                    assert(model->Array_0[it.index() as int] == value_model(item));
                }
                out.push(json_of(item));
            }
            let r = Json::Array(out);
            assert(r.deep_view()->Array_0 =~= model->Array_0);
            r
        },
        Shape::Object(fields) => {
            let ghost kids = fields@;
            let mut out: Vec<(String, Json)> = Vec::new();
            for pair in it: fields.into_iter()
                invariant
                    it.seq() == kids,
                    model == value_model(value),
                    model == JsonModel::Object(
                        Seq::new(kids.len(), |i: int| (kids[i].0@, value_model(kids[i].1))),
                    ),
                    out.len() == it.index(),
                    forall|j: int|
                        0 <= j < it.index() ==> (#[trigger] out@[j]).0@ == kids[j].0@
                            && out@[j].1.deep_view() == value_model(kids[j].1),
            {
                proof {
                    assert(decreases_to!(model => model->Object_0));
                    assert(decreases_to!(model->Object_0 => model->Object_0[it.index() as int]));
                    assert(decreases_to!(model->Object_0[it.index() as int] => model->Object_0[it.index() as int].1));
                    assert(model->Object_0[it.index() as int].1 == value_model(pair.1));
                }
                let child = json_of(pair.1);
                out.push((pair.0, child));
            }
            let r = Json::Object(out);
            assert(r.deep_view()->Object_0 =~= model->Object_0);
            r
        },
    }
}

/// Parses a JSON document; an error carries the parser's message. What was written as
/// compact text is read back.
pub fn parse_json(text: &str) -> (r: Result<Json, String>)
    ensures
        match r {
            Ok(value) => parsed_json(text@) == Ok::<JsonModel, Seq<char>>(value.deep_view()),
            Err(message) => parsed_json(text@) == Err::<JsonModel, Seq<char>>(message@),
        },
        reads_back(text@),
{
    match parse_value(text) {
        Ok(value) => Ok(json_of(value)),
        Err(message) => Err(message),
    }
}

impl Json {
    /// Whether arrays and objects are nested at most `depth` deep.
    pub fn is_within(&self, depth: u64) -> (r: bool)
        ensures
            r == nested_within(self.deep_view(), depth as nat),
        decreases self,
    {
        match self {
            Json::Array(items) => {
                let ghost model = self.deep_view()->Array_0;
                if depth == 0 {
                    return false;
                }
                let mut i: usize = 0;
                while i < items.len()
                    invariant
                        i <= items.len(),
                        depth > 0,
                        self.deep_view() == JsonModel::Array(model),
                        model.len() == items.len(),
                        forall|j: int|
                            0 <= j < items.len() ==> #[trigger] model[j] == items@[j].deep_view(),
                        forall|j: int|
                            0 <= j < i ==> nested_within(#[trigger] model[j], (depth - 1) as nat),
                        decreases_to!(*self => items@),
                    decreases items.len() - i,
                {
                    assert(decreases_to!(items@ => items@[i as int]));
                    if !items[i].is_within(depth - 1) {
                        assert(self.deep_view()->Array_0[i as int] == model[i as int]);
                        return false;
                    }
                    i += 1;
                }
                true
            },
            Json::Object(fields) => {
                let ghost model = self.deep_view()->Object_0;
                if depth == 0 {
                    return false;
                }
                let mut i: usize = 0;
                while i < fields.len()
                    invariant
                        i <= fields.len(),
                        depth > 0,
                        self.deep_view() == JsonModel::Object(model),
                        model.len() == fields.len(),
                        forall|j: int|
                            0 <= j < fields.len() ==> #[trigger] model[j] == (
                                fields@[j].0@,
                                fields@[j].1.deep_view(),
                            ),
                        forall|j: int|
                            0 <= j < i ==> nested_within(
                                (#[trigger] model[j]).1,
                                (depth - 1) as nat,
                            ),
                        decreases_to!(*self => fields@),
                    decreases fields.len() - i,
                {
                    assert(decreases_to!(fields@ => fields@[i as int]));
                    assert(decreases_to!(fields@[i as int] => fields@[i as int].1));
                    if !fields[i].1.is_within(depth - 1) {
                        assert(self.deep_view()->Object_0[i as int] == model[i as int]);
                        return false;
                    }
                    i += 1;
                }
                true
            },
            _ => true,
        }
    }

    /// Why the document cannot be read, where it is nested too deep.
    pub(crate) fn refusal(&self) -> (r: Option<String>)
        ensures
            match r {
                Some(message) => !is_readable(self.deep_view()) && message@ == refusal_of(
                    self.deep_view(),
                ),
                None => is_readable(self.deep_view()),
            },
    {
        if self.is_within(DEEPEST_JSON) {
            return None;
        }
        match parse_json(self.to_text().as_str()) {
            Ok(_) => Some("recursion limit exceeded".to_owned()),
            Err(message) => Some(message),
        }
    }
}

/// The value of a field is that of the first field with the name; without one there is
/// none, and only objects have fields.
pub proof fn law_fields_are_found_by_name(
    fields: Seq<(Seq<char>, JsonModel)>,
    key: Seq<char>,
    i: int,
)
    ensures
        (forall|j: int| 0 <= j < fields.len() ==> (#[trigger] fields[j]).0 != key)
            ==> JsonModel::Object(fields).field(key) is None,
        0 <= i < fields.len() && fields[i].0 == key && (forall|j: int|
            0 <= j < i ==> (#[trigger] fields[j]).0 != key) ==> JsonModel::Object(fields).field(key)
            == Some(fields[i].1),
    decreases fields.len(),
{
    if fields.len() > 0 {
        let rest = fields.skip(1);
        law_fields_are_found_by_name(rest, key, i - 1);
        if forall|j: int| 0 <= j < fields.len() ==> (#[trigger] fields[j]).0 != key {
            assert forall|j: int| 0 <= j < rest.len() implies (#[trigger] rest[j]).0 != key by {
                assert(rest[j] == fields[j + 1]);
            }
            assert(fields[0].0 != key);
            assert(JsonModel::Object(rest).field(key) is None);
        }
        if 0 <= i < fields.len() && fields[i].0 == key && (forall|j: int|
            0 <= j < i ==> (#[trigger] fields[j]).0 != key) {
            if i > 0 {
                assert(fields[0].0 != key);
                assert(rest[i - 1] == fields[i]);
                assert forall|j: int| 0 <= j < i - 1 implies (#[trigger] rest[j]).0 != key by {
                    assert(rest[j] == fields[j + 1]);
                }
                assert(JsonModel::Object(rest).field(key) == Some(rest[i - 1].1));
            }
        }
    }
}

/// Only objects have fields; a text field is one whose value is a string, and a number field
/// one whose value is an unsigned number.
pub proof fn law_fields_have_types(value: JsonModel, key: Seq<char>)
    ensures
        !(value is Object) ==> value.field(key) is None,
        value.text_field(key) == (match value.field(key) {
            Some(JsonModel::String(text)) => Some(text),
            _ => None,
        }),
        value.unsigned_field(key) == (match value.field(key) {
            Some(JsonModel::Number(number)) => number.unsigned,
            _ => None,
        }),
{
}

/// A text without the mark is one piece; a mark splits a text in two.
proof fn lemma_split_last(before: Seq<char>, mark: char, piece: Seq<char>)
    requires
        !piece.contains(mark),
    ensures
        split_at_mark(before.push(mark) + piece, mark) == split_at_mark(before, mark).push(piece),
    decreases piece.len(),
{
    let whole = before.push(mark) + piece;
    if piece.len() == 0 {
        assert(whole =~= before.push(mark));
        assert(whole.drop_last() =~= before);
        assert(piece =~= Seq::empty());
    } else {
        let shorter = piece.drop_last();
        assert(whole.drop_last() =~= before.push(mark) + shorter);
        assert(whole.last() == piece.last());
        assert(piece[piece.len() - 1] == piece.last());
        assert(piece.last() != mark) by {
            assert(piece.contains(piece.last()));
        }
        assert(!shorter.contains(mark)) by {
            if shorter.contains(mark) {
                let i = choose|i: int| 0 <= i < shorter.len() && shorter[i] == mark;
                assert(piece[i] == mark);
            }
        }
        lemma_split_last(before, mark, shorter);
        let pieces = split_at_mark(before, mark).push(shorter);
        assert(pieces.drop_last() =~= split_at_mark(before, mark));
        assert(shorter.push(piece.last()) =~= piece);
    }
}

proof fn lemma_no_pairs(text: Seq<char>, first: char, second: char, by: char)
    requires
        !text.contains(first),
    ensures
        pair_replaced(text, first, second, by) == text,
    decreases text.len(),
{
    if text.len() > 0 {
        assert(text.contains(text[0]));
        let rest = text.skip(1);
        assert(!rest.contains(first)) by {
            if rest.contains(first) {
                let i = choose|i: int| 0 <= i < rest.len() && rest[i] == first;
                assert(text[i + 1] == first);
            }
        }
        lemma_no_pairs(rest, first, second, by);
        assert(seq![text[0]] + rest =~= text);
    }
}

proof fn lemma_split_nonempty(text: Seq<char>, mark: char)
    ensures
        split_at_mark(text, mark).len() > 0,
    decreases text.len(),
{
    if text.len() > 0 {
        lemma_split_nonempty(text.drop_last(), mark);
    }
}

proof fn lemma_descend_same(
    root: JsonModel,
    short: Seq<Seq<char>>,
    long: Seq<Seq<char>>,
    n: nat,
)
    requires
        n <= short.len(),
        short.is_prefix_of(long),
    ensures
        root.descend(short, n) == root.descend(long, n),
    decreases n,
{
    if n > 0 {
        lemma_descend_same(root, short, long, (n - 1) as nat);
        assert(short[n - 1] == long[n - 1]);
    }
}

/// A pointer leads down one step at a time: the empty pointer to the value itself, and a
/// pointer with one more token to the child of that name of where the shorter one leads.
pub proof fn law_pointers_lead_down(root: JsonModel, pointer: Seq<char>, token: Seq<char>)
    requires
        pointer.len() == 0 || pointer[0] == '/',
        !token.contains('/'),
        !token.contains('~'),
    ensures
        root.at_pointer(Seq::empty()) == Some(root),
        root.at_pointer(pointer.push('/') + token) == (match root.at_pointer(pointer) {
            Some(at) => at.child(token),
            None => None,
        }),
{
    let longer = pointer.push('/') + token;
    let pieces = split_at_mark(pointer, '/');
    let more = split_at_mark(longer, '/');
    lemma_split_last(pointer, '/', token);
    lemma_split_nonempty(pointer, '/');
    assert(longer[0] == '/');
    lemma_no_pairs(token, '~', '1', '/');
    lemma_no_pairs(token, '~', '0', '~');
    assert(unescaped(token) == token);
    let short = pieces.skip(1);
    let long = more.skip(1);
    assert(more == pieces.push(token));
    assert(long =~= short.push(token));
    lemma_descend_same(root, short, long, short.len());
    assert(long[long.len() - 1] == token);
    assert(root.descend(long, long.len()) == (match root.descend(long, (long.len() - 1) as nat) {
        Some(at) => at.child(unescaped(long[long.len() - 1])),
        None => None,
    }));
    if pointer.len() == 0 {
        assert(pieces =~= seq![Seq::<char>::empty()]);
        assert(short =~= Seq::empty());
        assert(root.descend(short, short.len()) == Some(root));
    }
}

/// The child of an object is the field of that name, and that of an array the item at that
/// place; nothing else has children.
pub proof fn law_children_are_fields_and_items(value: JsonModel, token: Seq<char>)
    ensures
        value is Object ==> value.child(token) == value.field(token),
        value matches JsonModel::Array(items) ==> value.child(token) == (match index_value(token) {
            Some(place) => if place < items.len() {
                Some(items[place as int])
            } else {
                None
            },
            None => None,
        }),
        !(value is Object) && !(value is Array) ==> value.child(token) is None,
{
}

/// A place in an array is written in decimal digits; the number that they denote grows
/// tenfold with every further digit.
pub proof fn law_places_are_decimal(digits: Seq<char>, d: char)
    requires
        '0' <= d <= '9',
    ensures
        digits_value(digits.push(d)) == 10 * digits_value(digits) + (d as int - '0' as int),
        digits_value(Seq::empty()) == 0,
        index_value(digits) is Some ==> digits.len() > 0 && (digits[0] == '0' ==> digits.len()
            == 1),
{
    assert(digits.push(d).drop_last() =~= digits);
}

/// Equality of JSON values does not depend on the order in which they are compared, and
/// every value equals itself.
pub proof fn law_json_equality_is_symmetric(a: JsonModel, b: JsonModel)
    ensures
        same_json(a, a),
        same_json(a, b) == same_json(b, a),
    decreases a,
{
    match (a, b) {
        (JsonModel::Array(x), JsonModel::Array(y)) => {
            assert forall|i: int| 0 <= i < x.len() && i < y.len() implies same_json(
                #[trigger] x[i],
                y[i],
            ) == same_json(y[i], x[i]) by {
                assert(decreases_to!(a => x));
                assert(decreases_to!(x => x[i]));
                law_json_equality_is_symmetric(x[i], y[i]);
            }
            lemma_array_same(x, y);
        },
        (JsonModel::Object(x), JsonModel::Object(y)) => {
            assert forall|i: int| 0 <= i < x.len() && i < y.len() implies same_json(
                (#[trigger] x[i]).1,
                y[i].1,
            ) == same_json(y[i].1, x[i].1) by {
                assert(decreases_to!(a => x));
                assert(decreases_to!(x => x[i]));
                assert(decreases_to!(x[i] => x[i].1));
                law_json_equality_is_symmetric(x[i].1, y[i].1);
            }
            lemma_object_same(x, y);
        },
        _ => {},
    }
    lemma_same_as_itself(a);
}

proof fn lemma_array_same(x: Seq<JsonModel>, y: Seq<JsonModel>)
    requires
        forall|i: int|
            0 <= i < x.len() && i < y.len() ==> same_json(#[trigger] x[i], y[i]) == same_json(
                y[i],
                x[i],
            ),
    ensures
        same_json(JsonModel::Array(x), JsonModel::Array(y)) == same_json(
            JsonModel::Array(y),
            JsonModel::Array(x),
        ),
{
    let a = JsonModel::Array(x);
    let b = JsonModel::Array(y);
    if same_json(a, b) {
        assert forall|i: int| 0 <= i < b->Array_0.len() implies same_json(
            #[trigger] b->Array_0[i],
            a->Array_0[i],
        ) by {
            assert(same_json(a->Array_0[i], b->Array_0[i]));
            assert(same_json(x[i], y[i]) == same_json(y[i], x[i]));
        }
    }
    if same_json(b, a) {
        assert forall|i: int| 0 <= i < a->Array_0.len() implies same_json(
            #[trigger] a->Array_0[i],
            b->Array_0[i],
        ) by {
            assert(same_json(b->Array_0[i], a->Array_0[i]));
            assert(same_json(x[i], y[i]) == same_json(y[i], x[i]));
        }
    }
}

proof fn lemma_object_same(x: Seq<(Seq<char>, JsonModel)>, y: Seq<(Seq<char>, JsonModel)>)
    requires
        forall|i: int|
            0 <= i < x.len() && i < y.len() ==> same_json((#[trigger] x[i]).1, y[i].1) == same_json(
                y[i].1,
                x[i].1,
            ),
    ensures
        same_json(JsonModel::Object(x), JsonModel::Object(y)) == same_json(
            JsonModel::Object(y),
            JsonModel::Object(x),
        ),
{
    let a = JsonModel::Object(x);
    let b = JsonModel::Object(y);
    if same_json(a, b) {
        assert forall|i: int| 0 <= i < b->Object_0.len() implies (#[trigger] b->Object_0[i]).0
            == a->Object_0[i].0 && same_json(b->Object_0[i].1, a->Object_0[i].1) by {
            assert(a->Object_0[i].0 == b->Object_0[i].0);
            assert(same_json(x[i].1, y[i].1) == same_json(y[i].1, x[i].1));
        }
    }
    if same_json(b, a) {
        assert forall|i: int| 0 <= i < a->Object_0.len() implies (#[trigger] a->Object_0[i]).0
            == b->Object_0[i].0 && same_json(a->Object_0[i].1, b->Object_0[i].1) by {
            assert(b->Object_0[i].0 == a->Object_0[i].0);
            assert(same_json(x[i].1, y[i].1) == same_json(y[i].1, x[i].1));
        }
    }
}

proof fn lemma_same_as_itself(a: JsonModel)
    ensures
        same_json(a, a),
    decreases a,
{
    match a {
        JsonModel::Array(x) => {
            assert forall|i: int| 0 <= i < a->Array_0.len() implies same_json(
                #[trigger] a->Array_0[i],
                a->Array_0[i],
            ) by {
                assert(decreases_to!(a => x));
                assert(decreases_to!(x => x[i]));
                lemma_same_as_itself(x[i]);
            }
        },
        JsonModel::Object(x) => {
            assert forall|i: int| 0 <= i < a->Object_0.len() implies (#[trigger] a->Object_0[i]).0
                == a->Object_0[i].0 && same_json(a->Object_0[i].1, a->Object_0[i].1) by {
                assert(decreases_to!(a => x));
                assert(decreases_to!(x => x[i]));
                assert(decreases_to!(x[i] => x[i].1));
                lemma_same_as_itself(x[i].1);
            }
        },
        _ => {},
    }
}

/// Values that differ in kind, and scalars that differ in their text, are not equal; the two
/// floating-point zeros are.
pub proof fn law_json_equality_tells_apart(a: JsonModel, b: JsonModel)
    requires
        same_json(a, b),
    ensures
        a is Null <==> b is Null,
        a is Bool <==> b is Bool,
        a is Number <==> b is Number,
        a is String <==> b is String,
        a is Array <==> b is Array,
        a is Object <==> b is Object,
        a is Bool ==> a->Bool_0 == b->Bool_0,
        a is String ==> a->String_0 == b->String_0,
        a is Number && a->Number_0.text != b->Number_0.text ==> (a->Number_0.text == "0.0"@
            || a->Number_0.text == "-0.0"@) && (b->Number_0.text == "0.0"@ || b->Number_0.text
            == "-0.0"@),
        a is Array ==> a->Array_0.len() == b->Array_0.len() && forall|i: int|
            0 <= i < a->Array_0.len() ==> same_json(#[trigger] a->Array_0[i], b->Array_0[i]),
        a is Object ==> a->Object_0.len() == b->Object_0.len() && forall|i: int|
            0 <= i < a->Object_0.len() ==> (#[trigger] a->Object_0[i]).0 == b->Object_0[i].0
                && same_json(a->Object_0[i].1, b->Object_0[i].1),
{
}

/// The text of an array begins and ends with brackets and has the texts of its items in
/// between, separated by commas; that of an object likewise, with each name before its value.
pub proof fn law_json_text_is_composed(
    items: Seq<JsonModel>,
    item: JsonModel,
    fields: Seq<(Seq<char>, JsonModel)>,
    field: (Seq<char>, JsonModel),
)
    ensures
        json_text(JsonModel::Array(Seq::empty())) == seq!['[', ']'],
        json_text(JsonModel::Array(seq![item])) == seq!['['] + json_text(item) + seq![']'],
        items.len() > 0 ==> json_text(JsonModel::Array(items.push(item))) == json_text(
            JsonModel::Array(items),
        ).drop_last() + seq![','] + json_text(item) + seq![']'],
        json_text(JsonModel::Object(Seq::empty())) == seq!['{', '}'],
        json_text(JsonModel::Object(seq![field])) == seq!['{'] + json_text(
            JsonModel::String(field.0),
        ) + seq![':'] + json_text(field.1) + seq!['}'],
        fields.len() > 0 ==> json_text(JsonModel::Object(fields.push(field))) == json_text(
            JsonModel::Object(fields),
        ).drop_last() + seq![','] + json_text(JsonModel::String(field.0)) + seq![':'] + json_text(
            field.1,
        ) + seq!['}'],
        json_text(JsonModel::Null) == "null"@,
        json_text(JsonModel::Bool(true)) == "true"@,
        json_text(JsonModel::Bool(false)) == "false"@,
        item is Number ==> json_text(item) == item->Number_0.text,
{
    let none = JsonModel::Array(Seq::<JsonModel>::empty());
    assert(json_text(none) =~= seq!['[', ']']);
    let one = JsonModel::Array(seq![item]);
    assert(one->Array_0[0] == item);
    assert(json_text(one) =~= seq!['['] + json_text(item) + seq![']']);
    if items.len() > 0 {
        let more = items.push(item);
        lemma_items_text(items, more, items.len());
        assert(more[items.len() as int] == item);
        assert(json_text(JsonModel::Array(more)) =~= json_text(
            JsonModel::Array(items),
        ).drop_last() + seq![','] + json_text(item) + seq![']']);
    }
    let empty = JsonModel::Object(Seq::<(Seq<char>, JsonModel)>::empty());
    assert(json_text(empty) =~= seq!['{', '}']);
    let single = JsonModel::Object(seq![field]);
    assert(single->Object_0[0] == field);
    assert(json_text(single) =~= seq!['{'] + json_quoted(field.0) + seq![':'] + json_text(field.1)
        + seq!['}']);
    if fields.len() > 0 {
        let more = fields.push(field);
        lemma_fields_text(fields, more, fields.len());
        assert(more[fields.len() as int] == field);
        assert(json_text(JsonModel::Object(more)) =~= json_text(
            JsonModel::Object(fields),
        ).drop_last() + seq![','] + json_quoted(field.0) + seq![':'] + json_text(field.1) + seq![
            '}',
        ]);
    }
}

proof fn lemma_items_text(short: Seq<JsonModel>, long: Seq<JsonModel>, n: nat)
    requires
        n <= short.len(),
        short.is_prefix_of(long),
    ensures
        items_text(short, n) == items_text(long, n),
    decreases n,
{
    if n > 0 {
        lemma_items_text(short, long, (n - 1) as nat);
        assert(short[n - 1] == long[n - 1]);
        assert(short[0] == long[0]);
    }
}

proof fn lemma_fields_text(
    short: Seq<(Seq<char>, JsonModel)>,
    long: Seq<(Seq<char>, JsonModel)>,
    n: nat,
)
    requires
        n <= short.len(),
        short.is_prefix_of(long),
    ensures
        fields_text(short, n) == fields_text(long, n),
    decreases n,
{
    if n > 0 {
        lemma_fields_text(short, long, (n - 1) as nat);
        assert(short[n - 1] == long[n - 1]);
        assert(short[0] == long[0]);
    }
}

/// A JSON string stands in quotes, character by character: a quote, a backslash and every
/// control character behind a backslash, every other character as it is. No two characters
/// are written alike.
pub proof fn law_strings_are_escaped(a: Seq<char>, c: char, d: char)
    ensures
        json_text(JsonModel::String(Seq::empty())) == seq!['"', '"'],
        json_text(JsonModel::String(a.push(c))) == json_text(JsonModel::String(a)).drop_last()
            + json_escaped(c) + seq!['"'],
        c == '"' || c == '\\' || (c as int) < 32 ==> json_escaped(c)[0] == '\\'
            && json_escaped(c).len() >= 2,
        c != '"' && c != '\\' && c as int >= 32 ==> json_escaped(c) == seq![c],
        json_escaped(c) == json_escaped(d) ==> c == d,
        json_escaped('"')[1] == '"' && json_escaped('\\')[1] == '\\' && json_escaped('\n')[1] == 'n'
            && json_escaped('\t')[1] == 't' && json_escaped('\r')[1] == 'r',
{
    assert(json_text(JsonModel::String(Seq::empty())) =~= seq!['"', '"']);
    assert(a.push(c).drop_last() =~= a);
    assert(json_text(JsonModel::String(a.push(c))) =~= json_text(
        JsonModel::String(a),
    ).drop_last() + json_escaped(c) + seq!['"']);
    let e = json_escaped(c);
    let f = json_escaped(d);
    if e == f {
        assert(e.len() == f.len());
        assert(e[0] == f[0]);
        if e.len() >= 2 {
            assert(e[1] == f[1]);
        }
        if e.len() == 6 {
            assert(e[4] == f[4] && e[5] == f[5]);
            assert((c as nat) / 16 == (d as nat) / 16 && (c as nat) % 16 == (d as nat) % 16);
        }
    }
}

/// A value is one level deeper inside an array or an object; what is nested no deeper than
/// a depth is nested no deeper than a greater one, and documents are read up to a depth of
/// 127.
pub proof fn law_nesting_counts_levels(value: JsonModel, name: Seq<char>, depth: nat)
    ensures
        nested_within(JsonModel::Array(seq![value]), depth + 1) <==> nested_within(value, depth),
        nested_within(JsonModel::Object(seq![(name, value)]), depth + 1) <==> nested_within(
            value,
            depth,
        ),
        !(value is Array) && !(value is Object) ==> nested_within(value, 0),
        !nested_within(JsonModel::Array(seq![value]), 0),
        !nested_within(JsonModel::Object(seq![(name, value)]), 0),
        is_readable(value) <==> nested_within(value, 127),
{
    let list = JsonModel::Array(seq![value]);
    let object = JsonModel::Object(seq![(name, value)]);
    assert(list->Array_0[0] == value);
    assert(object->Object_0[0].1 == value);
    let inner = (depth + 1 - 1) as nat;
    assert(inner == depth);
    if nested_within(value, depth) {
        assert forall|i: int| 0 <= i < list->Array_0.len() implies nested_within(
            #[trigger] list->Array_0[i],
            inner,
        ) by {
        }
        assert forall|i: int| 0 <= i < object->Object_0.len() implies nested_within(
            (#[trigger] object->Object_0[i]).1,
            inner,
        ) by {
        }
    }
}

/// A name as a reference token of a pointer: tildes and slashes are escaped.
pub open spec fn pointer_token(name: Seq<char>) -> Seq<char>
    decreases name.len(),
{
    if name.len() == 0 {
        name
    } else if name[0] == '~' {
        seq!['~', '0'] + pointer_token(name.skip(1))
    } else if name[0] == '/' {
        seq!['~', '1'] + pointer_token(name.skip(1))
    } else {
        seq![name[0]] + pointer_token(name.skip(1))
    }
}

/// A name with its tildes escaped.
spec fn tildes_escaped(name: Seq<char>) -> Seq<char>
    decreases name.len(),
{
    if name.len() == 0 {
        name
    } else if name[0] == '~' {
        seq!['~', '0'] + tildes_escaped(name.skip(1))
    } else {
        seq![name[0]] + tildes_escaped(name.skip(1))
    }
}

proof fn lemma_slashes_back(name: Seq<char>)
    ensures
        pair_replaced(pointer_token(name), '~', '1', '/') == tildes_escaped(name),
    decreases name.len(),
{
    if name.len() > 0 {
        let rest = name.skip(1);
        let tail = pointer_token(rest);
        let whole = pointer_token(name);
        lemma_slashes_back(rest);
        if name[0] == '~' {
            assert(whole =~= seq!['~', '0'] + tail);
            let after = whole.skip(1);
            assert(after =~= seq!['0'] + tail);
            assert(after.skip(1) =~= tail);
            assert(pair_replaced(after, '~', '1', '/') =~= seq!['0'] + pair_replaced(
                tail,
                '~',
                '1',
                '/',
            ));
            assert(pair_replaced(whole, '~', '1', '/') =~= seq!['~', '0'] + tildes_escaped(rest));
        } else if name[0] == '/' {
            assert(whole =~= seq!['~', '1'] + tail);
            assert(whole.skip(2) =~= tail);
        } else {
            assert(whole =~= seq![name[0]] + tail);
            assert(whole.skip(1) =~= tail);
        }
    }
}

proof fn lemma_tildes_back(name: Seq<char>)
    ensures
        pair_replaced(tildes_escaped(name), '~', '0', '~') == name,
    decreases name.len(),
{
    if name.len() > 0 {
        let rest = name.skip(1);
        let tail = tildes_escaped(rest);
        let whole = tildes_escaped(name);
        lemma_tildes_back(rest);
        if name[0] == '~' {
            assert(whole =~= seq!['~', '0'] + tail);
            assert(whole.skip(2) =~= tail);
        } else {
            assert(whole =~= seq![name[0]] + tail);
            assert(whole.skip(1) =~= tail);
        }
        assert(seq![name[0]] + rest =~= name);
    }
}

proof fn lemma_token_has_no_slash(name: Seq<char>)
    ensures
        !pointer_token(name).contains('/'),
    decreases name.len(),
{
    if name.len() > 0 {
        let tail = pointer_token(name.skip(1));
        let whole = pointer_token(name);
        lemma_token_has_no_slash(name.skip(1));
        if whole.contains('/') {
            let i = choose|i: int| 0 <= i < whole.len() && whole[i] == '/';
            let n = whole.len() - tail.len();
            if i >= n {
                assert(tail[i - n] == '/');
            }
        }
    }
}

/// Escaping is undone: a pointer whose last token is an escaped name leads to the child of
/// that very name, whatever characters it holds.
pub proof fn law_pointers_reach_every_name(
    root: JsonModel,
    pointer: Seq<char>,
    name: Seq<char>,
)
    requires
        pointer.len() == 0 || pointer[0] == '/',
    ensures
        unescaped(pointer_token(name)) == name,
        root.at_pointer(pointer.push('/') + pointer_token(name)) == (match root.at_pointer(
            pointer,
        ) {
            Some(at) => at.child(name),
            None => None,
        }),
{
    let token = pointer_token(name);
    lemma_slashes_back(name);
    lemma_tildes_back(name);
    lemma_token_has_no_slash(name);
    let longer = pointer.push('/') + token;
    let pieces = split_at_mark(pointer, '/');
    let more = split_at_mark(longer, '/');
    lemma_split_last(pointer, '/', token);
    lemma_split_nonempty(pointer, '/');
    assert(longer[0] == '/');
    let short = pieces.skip(1);
    let long = more.skip(1);
    assert(more == pieces.push(token));
    assert(long =~= short.push(token));
    lemma_descend_same(root, short, long, short.len());
    assert(long[long.len() - 1] == token);
    assert(root.descend(long, long.len()) == (match root.descend(long, (long.len() - 1) as nat) {
        Some(at) => at.child(unescaped(long[long.len() - 1])),
        None => None,
    }));
    if pointer.len() == 0 {
        assert(pieces =~= seq![Seq::<char>::empty()]);
        assert(short =~= Seq::empty());
        assert(root.descend(short, short.len()) == Some(root));
    }
}

} // verus!
