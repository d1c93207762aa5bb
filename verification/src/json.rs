//! JSON documents: the values that the library reads and writes, and how they
//! come from text and go back to it.
use vstd::prelude::*;

use crate::names::{
    lemma_text_lt_irreflexive, lemma_text_lt_total, lemma_text_lt_transitive, less, text_lt,
};
use crate::text::{chars_of, digit, is_digit, is_id, same, text_result};

verus! {

/// A number: a `u64`, a negative `i64`, or anything else by its text.
pub enum Number {
    Unsigned(u64),
    Negative(i64),
    Float(String),
}

/// A JSON value. The keys of an object are in ascending order, each once.
pub enum Json {
    Null,
    Bool(bool),
    Number(Number),
    Str(String),
    Array(Vec<Json>),
    Object(Vec<(String, Json)>),
}

pub enum NumberView {
    Unsigned(u64),
    Negative(i64),
    Float(Seq<char>),
}

pub enum JsonView {
    Null,
    Bool(bool),
    Number(NumberView),
    Str(Seq<char>),
    Array(Seq<JsonView>),
    Object(Seq<(Seq<char>, JsonView)>),
}

impl Number {
    pub open spec fn model(self) -> NumberView {
        match self {
            Number::Unsigned(n) => NumberView::Unsigned(n),
            Number::Negative(n) => NumberView::Negative(n),
            Number::Float(s) => NumberView::Float(s@),
        }
    }
}

impl Json {
    pub open spec fn model(self) -> JsonView
        decreases self,
    {
        match self {
            Json::Null => JsonView::Null,
            Json::Bool(b) => JsonView::Bool(b),
            Json::Number(n) => JsonView::Number(n.model()),
            Json::Str(s) => JsonView::Str(s@),
            Json::Array(v) => JsonView::Array(
                Seq::new(
                    v@.len(),
                    |i: int|
                        if 0 <= i < v@.len() {
                            v@[i].model()
                        } else {
                            JsonView::Null
                        },
                ),
            ),
            Json::Object(v) => JsonView::Object(
                Seq::new(
                    v@.len(),
                    |i: int|
                        if 0 <= i < v@.len() {
                            (v@[i].0@, v@[i].1.model())
                        } else {
                            (seq![], JsonView::Null)
                        },
                ),
            ),
        }
    }
}

impl DeepView for Json {
    type V = JsonView;

    open spec fn deep_view(&self) -> JsonView {
        self.model()
    }
}

/// Keys in ascending order, each once.
pub open spec fn keys_ascend(pairs: Seq<(Seq<char>, JsonView)>) -> bool {
    forall|i: int, j: int|
        0 <= i < j < pairs.len() ==> text_lt(#[trigger] pairs[i].0, #[trigger] pairs[j].0)
}

impl JsonView {
    pub open spec fn wf(self) -> bool
        decreases self,
    {
        match self {
            JsonView::Number(NumberView::Negative(n)) => n < 0,
            JsonView::Array(s) => forall|i: int| 0 <= i < s.len() ==> (#[trigger] s[i]).wf(),
            JsonView::Object(s) => {
                &&& keys_ascend(s)
                &&& forall|i: int| 0 <= i < s.len() ==> (#[trigger] s[i]).1.wf()
            },
            _ => true,
        }
    }

    /// Holds no fractional number.
    pub open spec fn exact(self) -> bool
        decreases self,
    {
        match self {
            JsonView::Number(x) => !(x is Float),
            JsonView::Array(s) => forall|i: int| 0 <= i < s.len() ==> (#[trigger] s[i]).exact(),
            JsonView::Object(s) => forall|i: int|
                0 <= i < s.len() ==> (#[trigger] s[i]).1.exact(),
            _ => true,
        }
    }

    /// Nests arrays and objects at most `n` levels deep.
    pub open spec fn nests(self, n: nat) -> bool
        decreases n,
    {
        match self {
            JsonView::Array(s) => n > 0 && forall|i: int|
                0 <= i < s.len() ==> (#[trigger] s[i]).nests((n - 1) as nat),
            JsonView::Object(s) => n > 0 && forall|i: int|
                0 <= i < s.len() ==> (#[trigger] s[i]).1.nests((n - 1) as nat),
            _ => true,
        }
    }

    /// Has no object with the key that `serde_json` keeps to itself.
    pub open spec fn plain(self) -> bool
        decreases self,
    {
        match self {
            JsonView::Array(s) => forall|i: int| 0 <= i < s.len() ==> (#[trigger] s[i]).plain(),
            JsonView::Object(s) => forall|i: int|
                0 <= i < s.len() ==> (#[trigger] s[i]).0 != raw_key() && s[i].1.plain(),
            _ => true,
        }
    }

    /// Comes back from its text as it is: it holds no fractional number, which
    /// reading may round, nests no deeper than the reader follows, and has no key
    /// that the reader takes for something else.
    pub open spec fn readable(self) -> bool {
        self.exact() && self.nests(MAX_NESTING as nat) && self.plain()
    }
}

/// The key by which `serde_json` marks a value that is kept as raw text: an object
/// that begins with it is not read as an object.
pub open spec fn raw_key() -> Seq<char> {
    "$serde_json::private::RawValue"@
}

/// A short key is not that one.
pub proof fn lemma_short_key(key: Seq<char>)
    requires
        key.len() < 30,
    ensures
        key != raw_key(),
{
    reveal_strlit("$serde_json::private::RawValue");
}

/// `serde_json::Value`, a parsed document.
#[verifier::external_type_specification]
#[verifier::external_body]
pub struct ExValue(serde_json::Value);

/// What a parsed document holds.
pub uninterp spec fn value_model(value: serde_json::Value) -> JsonView;

/// What `serde_json::from_str` makes of a text: the document, or its complaint.
pub uninterp spec fn json_of(text: Seq<char>) -> Result<JsonView, Seq<char>>;

/// What `serde_json::to_string_pretty` writes for a document.
pub uninterp spec fn json_text(m: JsonView) -> Seq<char>;

/// The deepest nesting that `serde_json::from_str` reads.
pub const MAX_NESTING: u64 = 127;

/// `serde_json::from_str` into a `serde_json::Value`: the result depends on the
/// text alone.
#[verifier::external_body]
fn parse_value(text: &str) -> (r: Result<serde_json::Value, String>)
    ensures
        match r {
            Ok(v) => json_of(text@) == Ok::<JsonView, Seq<char>>(value_model(v)),
            Err(e) => json_of(text@) == Err::<JsonView, Seq<char>>(e@),
        },
{
    serde_json::from_str(text).map_err(|e: serde_json::Error| e.to_string())
}

/// The contents of a `serde_json::Value`, variant by variant. Its maps are
/// `BTreeMap`s, so keys come out in ascending order, each once; a number that
/// is neither a `u64` nor a negative `i64` is kept by its text.
#[verifier::external_body]
fn from_value(value: serde_json::Value) -> (r: Json)
    ensures
        r.model() == value_model(value),
        r.model().wf(),
{
    match value {
        serde_json::Value::Null => Json::Null,
        serde_json::Value::Bool(b) => Json::Bool(b),
        serde_json::Value::Number(n) => Json::Number(match (n.as_u64(), n.as_i64()) {
            (Some(u), _) => Number::Unsigned(u),
            (None, Some(i)) => Number::Negative(i),
            (None, None) => Number::Float(n.to_string()),
        }),
        serde_json::Value::String(s) => Json::Str(s),
        serde_json::Value::Array(a) => Json::Array(a.into_iter().map(from_value).collect()),
        serde_json::Value::Object(o) => {
            Json::Object(o.into_iter().map(|(k, v)| (k, from_value(v))).collect())
        }
    }
}

/// A document whose numbers that are kept by their texts are read again, each for
/// itself: reading may round.
pub open spec fn reread(m: JsonView) -> JsonView
    decreases m,
{
    match m {
        JsonView::Number(NumberView::Float(text)) => match json_of(text) {
            Ok(number) => number,
            Err(_) => JsonView::Null,
        },
        JsonView::Array(s) => JsonView::Array(
            Seq::new(
                s.len(),
                |i: int|
                    if 0 <= i < s.len() {
                        reread(s[i])
                    } else {
                        JsonView::Null
                    },
            ),
        ),
        JsonView::Object(s) => JsonView::Object(
            Seq::new(
                s.len(),
                |i: int|
                    if 0 <= i < s.len() {
                        (s[i].0, reread(s[i].1))
                    } else {
                        (seq![], JsonView::Null)
                    },
            ),
        ),
        _ => m,
    }
}

/// A document without fractional numbers stays as it is.
pub proof fn lemma_reread_exact(m: JsonView)
    requires
        m.exact(),
    ensures
        reread(m) == m,
    decreases m,
{
    match m {
        JsonView::Array(s) => {
            assert forall|i: int| 0 <= i < s.len() implies reread(#[trigger] s[i]) == s[i] by {
                lemma_reread_exact(s[i]);
            }
            assert(reread(m)->Array_0 =~= s);
        },
        JsonView::Object(s) => {
            assert forall|i: int| 0 <= i < s.len() implies reread((#[trigger] s[i]).1)
                == s[i].1 by {
                lemma_reread_exact(s[i].1);
            }
            assert(reread(m)->Object_0 =~= s);
        },
        _ => {},
    }
}

/// The `serde_json::Value` with the contents of `json`, variant by variant. A
/// number that is kept by its text is read by `serde_json::from_str`, and is null
/// where that fails.
#[verifier::external_body]
fn to_value(json: &Json) -> (r: serde_json::Value)
    ensures
        json.model().wf() ==> value_model(r) == reread(json.model()),
{
    match json {
        Json::Null => serde_json::Value::Null,
        Json::Bool(b) => serde_json::Value::Bool(*b),
        Json::Number(Number::Unsigned(n)) => serde_json::Value::from(*n),
        Json::Number(Number::Negative(n)) => serde_json::Value::from(*n),
        Json::Number(Number::Float(s)) => serde_json::from_str(s).unwrap_or_default(),
        Json::Str(s) => serde_json::Value::String(s.clone()),
        Json::Array(a) => serde_json::Value::Array(a.iter().map(to_value).collect()),
        Json::Object(o) => {
            serde_json::Value::Object(o.iter().map(|(k, v)| (k.clone(), to_value(v))).collect())
        }
    }
}

/// `serde_json::to_string_pretty` of a `serde_json::Value`, which cannot fail: the
/// text depends on the contents alone, and reading it gives the contents back where
/// they hold no fractional number, nest no deeper than the reader follows and have
/// no object with the key `$serde_json::private::RawValue`. Of other contents it is
/// not said what their text is read as.
#[verifier::external_body]
fn print_value(value: &serde_json::Value) -> (r: Result<String, String>)
    ensures
        match r {
            Ok(s) => {
                &&& s@ == json_text(value_model(*value))
                &&& value_model(*value).readable() ==> json_of(s@) == Ok::<JsonView, Seq<char>>(
                    value_model(*value),
                )
            },
            Err(_) => false,
        },
{
    serde_json::to_string_pretty(value).map_err(|e: serde_json::Error| e.to_string())
}

pub open spec fn json_result(r: Result<Json, String>) -> Result<JsonView, Seq<char>> {
    match r {
        Ok(j) => Ok(j.model()),
        Err(e) => Err(e@),
    }
}

/// The document that `text` holds.
pub fn read_json(text: &str) -> (r: Result<Json, String>)
    ensures
        json_result(r) == json_of(text@),
        r matches Ok(j) ==> j.model().wf(),
{
    match parse_value(text) {
        Ok(value) => Ok(from_value(value)),
        Err(e) => Err(e),
    }
}

/// What writing the document `m` gives: its text, which holds the document again
/// where that can be read back.
pub open spec fn writes(m: JsonView, r: Result<Seq<char>, Seq<char>>) -> bool {
    &&& r matches Ok(s)
    &&& s == json_text(reread(m))
    &&& m.readable() ==> json_of(s) == Ok::<JsonView, Seq<char>>(m)
}

/// The text of `json`. Where the document is one that comes back as it is, reading
/// the text gives it back.
pub fn write_json(json: &Json) -> (r: Result<String, String>)
    requires
        json.model().wf(),
    ensures
        writes(json.model(), text_result(r)),
{
    let value = to_value(json);
    proof {
        if json.model().exact() {
            lemma_reread_exact(json.model());
        }
    }
    print_value(&value)
}

/// The first position from `i` on whose key is `key`.
pub open spec fn key_from(pairs: Seq<(Seq<char>, JsonView)>, key: Seq<char>, i: int) -> Option<int>
    decreases pairs.len() - i,
{
    if i < 0 || i >= pairs.len() {
        None
    } else if pairs[i].0 == key {
        Some(i)
    } else {
        key_from(pairs, key, i + 1)
    }
}

pub proof fn lemma_key_from(pairs: Seq<(Seq<char>, JsonView)>, key: Seq<char>, i: int)
    requires
        0 <= i,
    ensures
        match key_from(pairs, key, i) {
            Some(k) => i <= k < pairs.len() && pairs[k].0 == key && forall|j: int|
                i <= j < k ==> (#[trigger] pairs[j]).0 != key,
            None => forall|j: int| i <= j < pairs.len() ==> (#[trigger] pairs[j]).0 != key,
        },
    decreases pairs.len() - i,
{
    if i < pairs.len() && pairs[i].0 != key {
        lemma_key_from(pairs, key, i + 1);
    }
}

/// The value under `key`.
pub open spec fn lookup(pairs: Seq<(Seq<char>, JsonView)>, key: Seq<char>) -> Option<JsonView> {
    match key_from(pairs, key, 0) {
        Some(k) => Some(pairs[k].1),
        None => None,
    }
}

/// The strings among `items`, in their order.
pub open spec fn strings_among(items: Seq<JsonView>) -> Seq<Seq<char>>
    decreases items.len(),
{
    if items.len() == 0 {
        seq![]
    } else {
        match items.last() {
            JsonView::Str(s) => strings_among(items.drop_last()).push(s),
            _ => strings_among(items.drop_last()),
        }
    }
}

/// The number that a string of digits stands for.
pub open spec fn digits_value(s: Seq<char>) -> nat
    decreases s.len(),
{
    if s.len() == 0 {
        0
    } else {
        digits_value(s.drop_last()) * 10 + (s.last() as nat - '0' as nat) as nat
    }
}

/// A decimal `u64`, a plus sign before it allowed.
pub open spec fn parse_u64(s: Seq<char>) -> Option<u64> {
    let d = if s.len() > 0 && s[0] == '+' {
        s.drop_first()
    } else {
        s
    };
    if is_id(d) && digits_value(d) <= u64::MAX {
        Some(digits_value(d) as u64)
    } else {
        None
    }
}

impl JsonView {
    /// The value under `key`, where this is an object that has it.
    pub open spec fn field(self, key: Seq<char>) -> Option<JsonView> {
        match self {
            JsonView::Object(pairs) => lookup(pairs, key),
            _ => None,
        }
    }

    pub open spec fn items(self) -> Seq<JsonView> {
        match self {
            JsonView::Array(s) => s,
            _ => seq![],
        }
    }

    pub open spec fn as_text(self) -> Option<Seq<char>> {
        match self {
            JsonView::Str(s) => Some(s),
            _ => None,
        }
    }

    pub open spec fn as_unsigned(self) -> Option<u64> {
        match self {
            JsonView::Number(NumberView::Unsigned(n)) => Some(n),
            _ => None,
        }
    }

    /// The items of the array under `key`; none where there is no array.
    pub open spec fn list(self, key: Seq<char>) -> Seq<JsonView> {
        match self.field(key) {
            Some(v) => v.items(),
            None => seq![],
        }
    }

    /// The strings in the array under `key`.
    pub open spec fn strings(self, key: Seq<char>) -> Seq<Seq<char>> {
        strings_among(self.list(key))
    }

    /// The string under `key`, or the empty string.
    pub open spec fn string(self, key: Seq<char>) -> Seq<char> {
        match self.field(key) {
            Some(JsonView::Str(s)) => s,
            _ => seq![],
        }
    }

    /// The number under `key`, written as a number or as a string, or zero.
    pub open spec fn number(self, key: Seq<char>) -> u64 {
        match self.field(key) {
            Some(JsonView::Number(NumberView::Unsigned(n))) => n,
            Some(JsonView::Str(s)) => match parse_u64(s) {
                Some(n) => n,
                None => 0,
            },
            _ => 0,
        }
    }

    /// The truth value under `key`, or false.
    pub open spec fn flag(self, key: Seq<char>) -> bool {
        self.field(key) == Some(JsonView::Bool(true))
    }
}

pub open spec fn model_of(j: Option<&Json>) -> Option<JsonView> {
    match j {
        Some(j) => Some(j.model()),
        None => None,
    }
}

/// A decimal `u64` out of a string.
pub fn read_u64(s: &str) -> (r: Option<u64>)
    ensures
        r == parse_u64(s@),
{
    let chars = chars_of(s);
    let start: usize = if chars.len() > 0 && chars[0] == '+' { 1 } else { 0 };
    let ghost d = if start == 1 { s@.drop_first() } else { s@ };
    assert(d =~= s@.skip(start as int));
    if start == chars.len() {
        return None;
    }
    let mut n: u64 = 0;
    let mut i: usize = start;
    let mut fits = true;
    while i < chars.len()
        invariant
            start <= i <= chars.len(),
            chars@ == s@,
            d == s@.skip(start as int),
            d == (if s@.len() > 0 && s@[0] == '+' {
                s@.drop_first()
            } else {
                s@
            }),
            forall|k: int| 0 <= k < i - start ==> is_digit(#[trigger] d[k]),
            fits ==> n == digits_value(d.take(i - start)),
            !fits ==> digits_value(d.take(i - start)) > u64::MAX,
        decreases chars.len() - i,
    {
        let c = chars[i];
        assert(d[i - start] == c);
        if !digit(c) {
            assert(!is_digit(d[i - start]));
            return None;
        }
        let v: u64 = (c as u32 - '0' as u32) as u64;
        proof {
            assert(d.take(i + 1 - start).drop_last() =~= d.take(i - start));
            assert(digits_value(d.take(i + 1 - start)) == digits_value(d.take(i - start)) * 10 + v);
        }
        if fits {
            match n.checked_mul(10) {
                Some(m) => match m.checked_add(v) {
                    Some(x) => {
                        n = x;
                    },
                    None => {
                        fits = false;
                    },
                },
                None => {
                    fits = false;
                },
            }
        }
        i += 1;
    }
    assert(d.take(chars.len() - start) =~= d);
    if fits {
        Some(n)
    } else {
        None
    }
}

impl Json {
    /// A second copy of the value.
    pub fn copy(&self) -> (r: Json)
        ensures
            r.model() == self.model(),
        decreases self,
    {
        match self {
            Json::Null => Json::Null,
            Json::Bool(b) => Json::Bool(*b),
            Json::Number(Number::Unsigned(n)) => Json::Number(Number::Unsigned(*n)),
            Json::Number(Number::Negative(n)) => Json::Number(Number::Negative(*n)),
            Json::Number(Number::Float(s)) => Json::Number(Number::Float(s.clone())),
            Json::Str(s) => Json::Str(s.clone()),
            Json::Array(v) => {
                let mut r: Vec<Json> = Vec::new();
                let mut i: usize = 0;
                while i < v.len()
                    invariant
                        i <= v.len(),
                        *self == Json::Array(*v),
                        r.len() == i,
                        forall|k: int| 0 <= k < i ==> (#[trigger] r@[k]).model() == v@[k].model(),
                    decreases v.len() - i,
                {
                    assert(decreases_to!(v => v[i as int]));
                    assert(decreases_to!(self => self->Array_0));
                    r.push(v[i].copy());
                    i += 1;
                }
                let out = Json::Array(r);
                assert(out.model()->Array_0 =~= self.model()->Array_0);
                out
            },
            Json::Object(v) => {
                let mut r: Vec<(String, Json)> = Vec::new();
                let mut i: usize = 0;
                while i < v.len()
                    invariant
                        i <= v.len(),
                        *self == Json::Object(*v),
                        r.len() == i,
                        forall|k: int|
                            0 <= k < i ==> (#[trigger] r@[k]).1.model() == v@[k].1.model()
                                && r@[k].0@ == v@[k].0@,
                    decreases v.len() - i,
                {
                    assert(decreases_to!(v[i as int] => v[i as int].1));
                    assert(decreases_to!(v => v[i as int]));
                    assert(decreases_to!(self => self->Object_0));
                    r.push((v[i].0.clone(), v[i].1.copy()));
                    i += 1;
                }
                let out = Json::Object(r);
                assert(out.model()->Object_0 =~= self.model()->Object_0);
                out
            },
        }
    }

    /// The value under `key`, where this is an object that has it.
    pub fn get(&self, key: &str) -> (r: Option<&Json>)
        ensures
            model_of(r) == self.model().field(key@),
    {
        match self {
            Json::Object(v) => {
                let ghost pairs = self.model()->Object_0;
                let mut i: usize = 0;
                while i < v.len()
                    invariant
                        i <= v.len(),
                        *self == Json::Object(*v),
                        pairs == self.model()->Object_0,
                        key_from(pairs, key@, 0) == key_from(pairs, key@, i as int),
                    decreases v.len() - i,
                {
                    if same(v[i].0.as_str(), key) {
                        return Some(&v[i].1);
                    }
                    i += 1;
                }
                None
            },
            _ => None,
        }
    }

    pub fn as_str(&self) -> (r: Option<&String>)
        ensures
            match r {
                Some(s) => self.model() == JsonView::Str(s@),
                None => self.model().as_text() is None,
            },
    {
        match self {
            Json::Str(s) => Some(s),
            _ => None,
        }
    }

    pub fn as_u64(&self) -> (r: Option<u64>)
        ensures
            r == self.model().as_unsigned(),
    {
        match self {
            Json::Number(Number::Unsigned(n)) => Some(*n),
            _ => None,
        }
    }

    pub fn is_true(&self) -> (r: bool)
        ensures
            r == (self.model() == JsonView::Bool(true)),
    {
        match self {
            Json::Bool(b) => *b,
            _ => false,
        }
    }

    /// The items of an array; none for anything else.
    pub fn array(&self) -> (r: Option<&Vec<Json>>)
        ensures
            match r {
                Some(v) => self.model() == JsonView::Array(v.deep_view()),
                None => !(self.model() is Array),
            },
    {
        match self {
            Json::Array(v) => {
                assert(self.model()->Array_0 =~= v.deep_view());
                Some(v)
            },
            _ => None,
        }
    }

    /// The truth value under `key`, or false.
    pub fn flag(&self, key: &str) -> (r: bool)
        ensures
            r == self.model().flag(key@),
    {
        match self.get(key) {
            Some(v) => v.is_true(),
            None => false,
        }
    }

    /// The strings among the items of an array.
    pub fn string_items(&self) -> (r: Vec<String>)
        ensures
            r.deep_view() == strings_among(self.model().items()),
    {
        let mut r: Vec<String> = Vec::new();
        assert(r.deep_view() =~= seq![]);
        match self.array() {
            Some(v) => {
                let ghost all = v.deep_view();
                let mut i: usize = 0;
                while i < v.len()
                    invariant
                        i <= v.len(),
                        all == v.deep_view(),
                        r.deep_view() == strings_among(all.take(i as int)),
                    decreases v.len() - i,
                {
                    proof {
                        assert(all.take(i + 1).drop_last() =~= all.take(i as int));
                    }
                    match v[i].as_str() {
                        Some(s) => {
                            let ghost before = r.deep_view();
                            r.push(s.clone());
                            assert(r.deep_view() =~= before.push(s@));
                        },
                        None => {},
                    }
                    i += 1;
                }
                assert(all.take(v.len() as int) =~= all);
            },
            None => {},
        }
        r
    }

    /// The strings in the array under `key`.
    pub fn strings(&self, key: &str) -> (r: Vec<String>)
        ensures
            r.deep_view() == self.model().strings(key@),
    {
        match self.get(key) {
            Some(value) => value.string_items(),
            None => {
                let r: Vec<String> = Vec::new();
                assert(r.deep_view() =~= seq![]);
                r
            },
        }
    }
}

/// The string under `key`, or the empty string.
pub fn value_string(value: &Json, key: &str) -> (r: String)
    ensures
        r@ == value.model().string(key@),
{
    match value.get(key) {
        Some(Json::Str(s)) => s.clone(),
        _ => String::new(),
    }
}

/// The number under `key`, written as a number or as a string, or zero.
pub fn value_u64(value: &Json, key: &str) -> (r: u64)
    ensures
        r == value.model().number(key@),
{
    match value.get(key) {
        Some(Json::Number(Number::Unsigned(n))) => *n,
        Some(Json::Str(s)) => match read_u64(s.as_str()) {
            Some(n) => n,
            None => 0,
        },
        _ => 0,
    }
}

/// The first position from `i` on whose key does not come before `key`.
pub open spec fn slot_from(pairs: Seq<(Seq<char>, JsonView)>, key: Seq<char>, i: int) -> int
    decreases pairs.len() - i,
{
    if i < 0 || i >= pairs.len() {
        pairs.len() as int
    } else if !text_lt(pairs[i].0, key) {
        i
    } else {
        slot_from(pairs, key, i + 1)
    }
}

/// `pairs` with `value` under `key`.
pub open spec fn with_field(
    pairs: Seq<(Seq<char>, JsonView)>,
    key: Seq<char>,
    value: JsonView,
) -> Seq<(Seq<char>, JsonView)> {
    let i = slot_from(pairs, key, 0);
    if i < pairs.len() && pairs[i].0 == key {
        pairs.update(i, (key, value))
    } else {
        pairs.insert(i, (key, value))
    }
}

/// `pairs` without `key`.
pub open spec fn without_field(
    pairs: Seq<(Seq<char>, JsonView)>,
    key: Seq<char>,
) -> Seq<(Seq<char>, JsonView)> {
    match key_from(pairs, key, 0) {
        Some(k) => pairs.remove(k),
        None => pairs,
    }
}

/// The object that holds `fields`, put in one after the other.
pub open spec fn fields_of(fields: Seq<(Seq<char>, JsonView)>) -> Seq<(Seq<char>, JsonView)>
    decreases fields.len(),
{
    if fields.len() == 0 {
        seq![]
    } else {
        with_field(fields_of(fields.drop_last()), fields.last().0, fields.last().1)
    }
}

pub open spec fn object_of(fields: Seq<(Seq<char>, JsonView)>) -> JsonView {
    JsonView::Object(fields_of(fields))
}

pub proof fn lemma_slot(pairs: Seq<(Seq<char>, JsonView)>, key: Seq<char>, i: int)
    requires
        0 <= i <= pairs.len(),
    ensures
        i <= slot_from(pairs, key, i) <= pairs.len(),
        forall|j: int| i <= j < slot_from(pairs, key, i) ==> text_lt(#[trigger] pairs[j].0, key),
        slot_from(pairs, key, i) < pairs.len() ==> !text_lt(
            pairs[slot_from(pairs, key, i)].0,
            key,
        ),
    decreases pairs.len() - i,
{
    if i < pairs.len() && text_lt(pairs[i].0, key) {
        lemma_slot(pairs, key, i + 1);
    }
}

/// Putting a value under a key keeps an object's keys in order; the key then
/// has the value, and every other key what it had.
pub proof fn law_with_field(
    pairs: Seq<(Seq<char>, JsonView)>,
    key: Seq<char>,
    value: JsonView,
)
    requires
        keys_ascend(pairs),
    ensures
        keys_ascend(with_field(pairs, key, value)),
        lookup(with_field(pairs, key, value), key) == Some(value),
        forall|other: Seq<char>|
            other != key ==> #[trigger] lookup(with_field(pairs, key, value), other) == lookup(
                pairs,
                other,
            ),
{
    let i = slot_from(pairs, key, 0);
    let out = with_field(pairs, key, value);
    lemma_slot(pairs, key, 0);
    assert forall|a: int, b: int| 0 <= a < b < out.len() implies text_lt(
        #[trigger] out[a].0,
        #[trigger] out[b].0,
    ) by {
        if i < pairs.len() && pairs[i].0 == key {
            assert(out[a].0 == pairs[a].0 && out[b].0 == pairs[b].0);
        } else {
            if i < pairs.len() {
                lemma_text_lt_total(pairs[i].0, key);
            }
            if b < i {
                assert(out[a] == pairs[a] && out[b] == pairs[b]);
            } else if b == i {
                assert(out[a] == pairs[a]);
            } else if a == i {
                assert(out[b] == pairs[b - 1]);
                if b - 1 > i {
                    assert(text_lt(pairs[i].0, pairs[b - 1].0));
                    lemma_text_lt_transitive(key, pairs[i].0, pairs[b - 1].0);
                }
            } else if a < i {
                assert(out[a] == pairs[a] && out[b] == pairs[b - 1]);
            } else {
                assert(out[a] == pairs[a - 1] && out[b] == pairs[b - 1]);
            }
        }
    }
    assert(out[i] == (key, value));
    lemma_unique_lookup(out, i);
    assert forall|other: Seq<char>| other != key implies #[trigger] lookup(out, other) == lookup(
        pairs,
        other,
    ) by {
        lemma_key_from(pairs, other, 0);
        lemma_key_from(out, other, 0);
        match key_from(pairs, other, 0) {
            Some(k) => {
                let m = if i < pairs.len() && pairs[i].0 == key || k < i {
                    k
                } else {
                    k + 1
                };
                assert(out[m] == pairs[k]);
                lemma_unique_lookup(out, m);
            },
            None => {
                match key_from(out, other, 0) {
                    Some(m) => {
                        let k = if i < pairs.len() && pairs[i].0 == key || m < i {
                            m
                        } else {
                            m - 1
                        };
                        assert(out[m] == pairs[k]);
                    },
                    None => {},
                }
            },
        }
    }
}

/// Where keys ascend, the value at a position is what its key looks up.
pub proof fn lemma_unique_lookup(pairs: Seq<(Seq<char>, JsonView)>, k: int)
    requires
        keys_ascend(pairs),
        0 <= k < pairs.len(),
    ensures
        lookup(pairs, pairs[k].0) == Some(pairs[k].1),
        key_from(pairs, pairs[k].0, 0) == Some(k),
{
    lemma_key_from(pairs, pairs[k].0, 0);
    let j = key_from(pairs, pairs[k].0, 0);
    match j {
        Some(m) => {
            lemma_text_lt_irreflexive(pairs[k].0);
            if m < k {
                assert(text_lt(pairs[m].0, pairs[k].0));
            }
            if k < m {
                assert(pairs[k].0 != pairs[k].0);
            }
        },
        None => {
            assert(pairs[k].0 != pairs[k].0);
        },
    }
}

/// Taking a key out of an object keeps the order of its keys; the key is then
/// gone, and every other key has what it had.
pub proof fn law_without_field(pairs: Seq<(Seq<char>, JsonView)>, key: Seq<char>)
    requires
        keys_ascend(pairs),
    ensures
        keys_ascend(without_field(pairs, key)),
        lookup(without_field(pairs, key), key) is None,
        forall|other: Seq<char>|
            other != key ==> #[trigger] lookup(without_field(pairs, key), other) == lookup(
                pairs,
                other,
            ),
{
    lemma_key_from(pairs, key, 0);
    let out = without_field(pairs, key);
    match key_from(pairs, key, 0) {
        Some(k) => {
            assert forall|a: int, b: int| 0 <= a < b < out.len() implies text_lt(
                #[trigger] out[a].0,
                #[trigger] out[b].0,
            ) by {
                let x = if a < k { a } else { a + 1 };
                let y = if b < k { b } else { b + 1 };
                assert(out[a] == pairs[x] && out[b] == pairs[y]);
            }
            lemma_key_from(out, key, 0);
            match key_from(out, key, 0) {
                Some(m) => {
                    let x = if m < k { m } else { m + 1 };
                    assert(out[m] == pairs[x]);
                    lemma_text_lt_irreflexive(key);
                    if x < k {
                        assert(text_lt(pairs[x].0, pairs[k].0));
                    } else {
                        assert(text_lt(pairs[k].0, pairs[x].0));
                    }
                },
                None => {},
            }
            assert forall|other: Seq<char>| other != key implies #[trigger] lookup(out, other)
                == lookup(pairs, other) by {
                lemma_key_from(pairs, other, 0);
                lemma_key_from(out, other, 0);
                match key_from(pairs, other, 0) {
                    Some(p) => {
                        let m = if p < k { p } else { p - 1 };
                        assert(out[m] == pairs[p]);
                        lemma_unique_lookup(out, m);
                    },
                    None => {
                        match key_from(out, other, 0) {
                            Some(m) => {
                                let x = if m < k { m } else { m + 1 };
                                assert(out[m] == pairs[x]);
                            },
                            None => {},
                        }
                    },
                }
            }
        },
        None => {},
    }
}

/// The fields of an object by their view.
pub open spec fn pairs_of(v: Seq<(String, Json)>) -> Seq<(Seq<char>, JsonView)> {
    Seq::new(v.len(), |i: int| (v[i].0@, v[i].1.model()))
}

pub proof fn lemma_object_model(v: Vec<(String, Json)>)
    ensures
        Json::Object(v).model() == JsonView::Object(pairs_of(v@)),
{
    assert(Json::Object(v).model()->Object_0 =~= pairs_of(v@));
}

/// Puts `value` under `key`.
pub fn put(pairs: &mut Vec<(String, Json)>, key: &str, value: Json)
    ensures
        pairs_of(final(pairs)@) == with_field(pairs_of(old(pairs)@), key@, value.model()),
{
    let ghost before = pairs_of(pairs@);
    let mut i: usize = 0;
    while i < pairs.len() && less(pairs[i].0.as_str(), key)
        invariant
            i <= pairs.len(),
            before == pairs_of(pairs@),
            slot_from(before, key@, 0) == slot_from(before, key@, i as int),
        decreases pairs.len() - i,
    {
        i += 1;
    }
    if i < pairs.len() && same(pairs[i].0.as_str(), key) {
        pairs.set(i, (key.to_string(), value));
        assert(pairs_of(pairs@) =~= before.update(i as int, (key@, value.model())));
    } else {
        pairs.insert(i, (key.to_string(), value));
        assert(pairs_of(pairs@) =~= before.insert(i as int, (key@, value.model())));
    }
}

/// Takes `key` out.
pub fn take_out(pairs: &mut Vec<(String, Json)>, key: &str)
    ensures
        pairs_of(final(pairs)@) == without_field(pairs_of(old(pairs)@), key@),
{
    let ghost before = pairs_of(pairs@);
    let mut i: usize = 0;
    while i < pairs.len() && !same(pairs[i].0.as_str(), key)
        invariant
            i <= pairs.len(),
            before == pairs_of(pairs@),
            key_from(before, key@, 0) == key_from(before, key@, i as int),
        decreases pairs.len() - i,
    {
        i += 1;
    }
    if i < pairs.len() {
        pairs.remove(i);
        assert(pairs_of(pairs@) =~= before.remove(i as int));
    }
}

/// Every value of an object that a field was put into is the new one or was
/// there before.
pub proof fn lemma_with_field_values(
    pairs: Seq<(Seq<char>, JsonView)>,
    key: Seq<char>,
    value: JsonView,
    k: int,
)
    requires
        0 <= k < with_field(pairs, key, value).len(),
    ensures
        ({
            let x = with_field(pairs, key, value)[k];
            x == (key, value) || exists|i: int| 0 <= i < pairs.len() && #[trigger] pairs[i] == x
        }),
{
    let out = with_field(pairs, key, value);
    let s = slot_from(pairs, key, 0);
    lemma_slot(pairs, key, 0);
    if k != s {
        if s < pairs.len() && pairs[s].0 == key || k < s {
            assert(out[k] == pairs[k]);
        } else {
            assert(out[k] == pairs[k - 1]);
        }
    }
}

/// Putting a sound value into a sound object leaves it sound.
pub proof fn lemma_with_field_sound(
    pairs: Seq<(Seq<char>, JsonView)>,
    key: Seq<char>,
    value: JsonView,
    n: nat,
)
    ensures
        JsonView::Object(pairs).wf() && value.wf() ==> JsonView::Object(
            with_field(pairs, key, value),
        ).wf(),
        JsonView::Object(pairs).exact() && value.exact() ==> JsonView::Object(
            with_field(pairs, key, value),
        ).exact(),
        JsonView::Object(pairs).nests(n + 1) && value.nests(n) ==> JsonView::Object(
            with_field(pairs, key, value),
        ).nests(n + 1),
        JsonView::Object(pairs).plain() && value.plain() && key != raw_key() ==> JsonView::Object(
            with_field(pairs, key, value),
        ).plain(),
{
    let out = with_field(pairs, key, value);
    if JsonView::Object(pairs).wf() && value.wf() {
        law_with_field(pairs, key, value);
        assert forall|k: int| 0 <= k < out.len() implies (#[trigger] out[k]).1.wf() by {
            lemma_with_field_values(pairs, key, value, k);
        }
    }
    if JsonView::Object(pairs).exact() && value.exact() {
        assert forall|k: int| 0 <= k < out.len() implies (#[trigger] out[k]).1.exact() by {
            lemma_with_field_values(pairs, key, value, k);
        }
    }
    if JsonView::Object(pairs).plain() && value.plain() && key != raw_key() {
        assert forall|k: int| 0 <= k < out.len() implies (#[trigger] out[k]).0 != raw_key()
            && out[k].1.plain() by {
            lemma_with_field_values(pairs, key, value, k);
        }
    }
    if JsonView::Object(pairs).nests(n + 1) && value.nests(n) {
        assert forall|k: int| 0 <= k < out.len() implies (#[trigger] out[k]).1.nests(n) by {
            lemma_with_field_values(pairs, key, value, k);
            if out[k] != (key, value) {
                let i = choose|i: int| 0 <= i < pairs.len() && #[trigger] pairs[i] == out[k];
                assert(pairs[i].1.nests((n + 1 - 1) as nat));
            }
        }
    }
}

/// An array of strings.
pub open spec fn text_array(texts: Seq<Seq<char>>) -> JsonView {
    JsonView::Array(texts.map_values(|t: Seq<char>| JsonView::Str(t)))
}

pub proof fn lemma_text_array(texts: Seq<Seq<char>>)
    ensures
        strings_among(text_array(texts).items()) == texts,
        text_array(texts).wf(),
        text_array(texts).exact(),
        text_array(texts).nests(1),
        text_array(texts).plain(),
    decreases texts.len(),
{
    let items = text_array(texts).items();
    assert forall|i: int| 0 <= i < items.len() implies (#[trigger] items[i]).wf()
        && items[i].exact() && items[i].nests(0) && items[i].plain() by {}
    if texts.len() > 0 {
        lemma_text_array(texts.drop_last());
        assert(items.drop_last() =~= text_array(texts.drop_last()).items());
        assert(texts =~= texts.drop_last().push(texts.last()));
    } else {
        assert(texts =~= seq![]);
    }
}

/// The array of `texts`.
pub fn json_texts(texts: &Vec<String>) -> (r: Json)
    ensures
        r.model() == text_array(texts.deep_view()),
{
    let mut v: Vec<Json> = Vec::new();
    let mut i: usize = 0;
    while i < texts.len()
        invariant
            i <= texts.len(),
            v.len() == i,
            forall|k: int|
                0 <= k < i ==> (#[trigger] v@[k]).model() == JsonView::Str(texts@[k]@),
        decreases texts.len() - i,
    {
        v.push(Json::Str(texts[i].clone()));
        i += 1;
    }
    let r = Json::Array(v);
    assert(r.model()->Array_0 =~= text_array(texts.deep_view())->Array_0);
    r
}

pub fn json_number(n: u64) -> (r: Json)
    ensures
        r.model() == JsonView::Number(NumberView::Unsigned(n)),
{
    Json::Number(Number::Unsigned(n))
}

/// The sound documents: keys in order and none of them `serde_json`'s own, no
/// fractional number, at most `n` levels. They are read back as they were written.
pub open spec fn sound(m: JsonView, n: nat) -> bool {
    m.wf() && m.exact() && m.nests(n) && m.plain()
}

/// Fields of sound values make a sound object.
pub proof fn lemma_fields_of_sound(fields: Seq<(Seq<char>, JsonView)>, n: nat)
    requires
        forall|i: int|
            0 <= i < fields.len() ==> (#[trigger] fields[i]).0 != raw_key() && sound(
                fields[i].1,
                n,
            ),
    ensures
        sound(object_of(fields), n + 1),
    decreases fields.len(),
{
    if fields.len() > 0 {
        let t = fields.drop_last();
        assert forall|i: int| 0 <= i < t.len() implies (#[trigger] t[i]).0 != raw_key() && sound(
            t[i].1,
            n,
        ) by {
            assert(t[i] == fields[i]);
        }
        lemma_fields_of_sound(t, n);
        assert(fields[fields.len() - 1].0 != raw_key() && sound(fields[fields.len() - 1].1, n));
        lemma_with_field_sound(fields_of(t), fields.last().0, fields.last().1, n);
    }
}

/// The value that was put under a key last is the one that is found there.
pub proof fn lemma_fields_lookup(fields: Seq<(Seq<char>, JsonView)>, k: int)
    requires
        0 <= k < fields.len(),
        forall|j: int| k < j < fields.len() ==> (#[trigger] fields[j]).0 != fields[k].0,
    ensures
        lookup(fields_of(fields), fields[k].0) == Some(fields[k].1),
        keys_ascend(fields_of(fields)),
    decreases fields.len(),
{
    lemma_fields_ascend(fields);
    let t = fields.drop_last();
    lemma_fields_ascend(t);
    law_with_field(fields_of(t), fields.last().0, fields.last().1);
    if k < t.len() {
        assert forall|j: int| k < j < t.len() implies (#[trigger] t[j]).0 != t[k].0 by {
            assert(fields[j].0 != fields[k].0);
        }
        lemma_fields_lookup(t, k);
        assert(fields[fields.len() - 1].0 != fields[k].0);
    }
}

pub proof fn lemma_fields_ascend(fields: Seq<(Seq<char>, JsonView)>)
    ensures
        keys_ascend(fields_of(fields)),
    decreases fields.len(),
{
    if fields.len() > 0 {
        lemma_fields_ascend(fields.drop_last());
        law_with_field(fields_of(fields.drop_last()), fields.last().0, fields.last().1);
    }
}

/// The object that holds `fields`, put in one after the other.
pub fn json_object(fields: Vec<(String, Json)>) -> (r: Json)
    ensures
        r.model() == object_of(pairs_of(fields@)),
{
    let ghost all = pairs_of(fields@);
    let mut rest = fields;
    let mut pairs: Vec<(String, Json)> = Vec::new();
    let ghost mut n: int = 0;
    assert(pairs_of(pairs@) =~= seq![]);
    assert(all.subrange(0, all.len() as int) =~= pairs_of(rest@));
    while rest.len() > 0
        invariant
            0 <= n <= all.len(),
            pairs_of(rest@) == all.subrange(n, all.len() as int),
            pairs_of(pairs@) == fields_of(all.take(n)),
        decreases rest.len(),
    {
        let ghost was = pairs_of(rest@);
        let (key, value) = rest.remove(0);
        proof {
            assert(was[0] == (key@, value.model()));
            assert(pairs_of(rest@) =~= was.subrange(1, was.len() as int));
            assert(all.take(n + 1).drop_last() =~= all.take(n));
            n = n + 1;
            assert(pairs_of(rest@) =~= all.subrange(n, all.len() as int));
        }
        put(&mut pairs, key.as_str(), value);
    }
    proof {
        assert(pairs_of(rest@).len() == 0);
        assert(all.take(n) =~= all);
        lemma_object_model(pairs);
    }
    Json::Object(pairs)
}

/// The value under `key` among `pairs`.
pub fn find_pair<'a>(pairs: &'a Vec<(String, Json)>, key: &str) -> (r: Option<&'a Json>)
    ensures
        model_of(r) == lookup(pairs_of(pairs@), key@),
{
    let ghost all = pairs_of(pairs@);
    let mut i: usize = 0;
    while i < pairs.len()
        invariant
            i <= pairs.len(),
            all == pairs_of(pairs@),
            key_from(all, key@, 0) == key_from(all, key@, i as int),
        decreases pairs.len() - i,
    {
        if same(pairs[i].0.as_str(), key) {
            return Some(&pairs[i].1);
        }
        i += 1;
    }
    None
}

impl Json {
    /// The fields of an object; none for anything else.
    pub fn object(&self) -> (r: Option<&Vec<(String, Json)>>)
        ensures
            match r {
                Some(v) => self.model() == JsonView::Object(pairs_of(v@)),
                None => !(self.model() is Object),
            },
    {
        match self {
            Json::Object(v) => {
                proof {
                    lemma_object_model(*v);
                }
                Some(v)
            },
            _ => None,
        }
    }

    /// Whether two values are the same document.
    pub fn equals(&self, other: &Json) -> (r: bool)
        ensures
            r == (self.model() == other.model()),
        decreases self,
    {
        match (self, other) {
            (Json::Null, Json::Null) => true,
            (Json::Bool(a), Json::Bool(b)) => *a == *b,
            (Json::Number(a), Json::Number(b)) => match (a, b) {
                (Number::Unsigned(x), Number::Unsigned(y)) => *x == *y,
                (Number::Negative(x), Number::Negative(y)) => *x == *y,
                (Number::Float(x), Number::Float(y)) => same(x.as_str(), y.as_str()),
                _ => false,
            },
            (Json::Str(a), Json::Str(b)) => same(a.as_str(), b.as_str()),
            (Json::Array(a), Json::Array(b)) => {
                let ghost x = self.model()->Array_0;
                let ghost y = other.model()->Array_0;
                if a.len() != b.len() {
                    assert(x.len() != y.len());
                    return false;
                }
                let mut i: usize = 0;
                while i < a.len()
                    invariant
                        i <= a.len(),
                        a.len() == b.len(),
                        *self == Json::Array(*a),
                        *other == Json::Array(*b),
                        x == self.model()->Array_0,
                        y == other.model()->Array_0,
                        forall|k: int| 0 <= k < i ==> #[trigger] x[k] == y[k],
                    decreases a.len() - i,
                {
                    assert(decreases_to!(a => a[i as int]));
                    assert(decreases_to!(self => self->Array_0));
                    assert(x[i as int] == a@[i as int].model());
                    assert(y[i as int] == b@[i as int].model());
                    if !a[i].equals(&b[i]) {
                        return false;
                    }
                    i += 1;
                }
                assert(x =~= y);
                true
            },
            (Json::Object(a), Json::Object(b)) => {
                let ghost x = self.model()->Object_0;
                let ghost y = other.model()->Object_0;
                if a.len() != b.len() {
                    assert(x.len() != y.len());
                    return false;
                }
                let mut i: usize = 0;
                while i < a.len()
                    invariant
                        i <= a.len(),
                        a.len() == b.len(),
                        *self == Json::Object(*a),
                        *other == Json::Object(*b),
                        x == self.model()->Object_0,
                        y == other.model()->Object_0,
                        forall|k: int| 0 <= k < i ==> #[trigger] x[k] == y[k],
                    decreases a.len() - i,
                {
                    assert(decreases_to!(a[i as int] => a[i as int].1));
                    assert(decreases_to!(a => a[i as int]));
                    assert(decreases_to!(self => self->Object_0));
                    assert(x[i as int] == (a@[i as int].0@, a@[i as int].1.model()));
                    assert(y[i as int] == (b@[i as int].0@, b@[i as int].1.model()));
                    if !same(a[i].0.as_str(), b[i].0.as_str()) || !a[i].1.equals(&b[i].1) {
                        return false;
                    }
                    i += 1;
                }
                assert(x =~= y);
                true
            },
            _ => false,
        }
    }
}

} // verus!
