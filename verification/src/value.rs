//! JSON values: the `JsonValue` tree, objects with unique keys, accessors, and
//! serialization to compact JSON text.

use vstd::prelude::*;
use crate::error::{JsonError, JsonErrorView};
use crate::text::{push_text, str_eq};


verus! {

broadcast use vstd::seq::group_seq_axioms;

/// The mathematical content of a JSON value. Texts are character sequences;
/// a number is kept as the text of its literal; an object is the sequence of
/// its entries in insertion order.
pub enum JsonValueView {
    Null,
    Boolean(bool),
    Number(Seq<char>),
    Text(Seq<char>),
    Array(Seq<JsonValueView>),
    Object(Seq<(Seq<char>, JsonValueView)>),
}

/// A JSON object: entries from string keys to values, each key at most once.
/// Inserting a key that is already present replaces its value (last wins).
#[derive(Debug, PartialEq)]
pub struct JsonObject {
    entries: Vec<(String, JsonValue)>,
}

/// A parsed JSON value.
///
/// JSON has six types, and this enum has one variant per type. A number is
/// kept as the text of its literal (for instance `-1.5e3`); strings are
/// unescaped; containers own their contents.
#[derive(Debug, PartialEq)]
pub enum JsonValue {
    /// JSON `null`.
    Null,
    /// JSON `true` or `false`.
    Boolean(bool),
    /// JSON number, as the text of its literal.
    Number(String),
    /// JSON string, with escape sequences already expanded.
    Text(String),
    /// JSON array.
    Array(Vec<JsonValue>),
    /// JSON object.
    Object(JsonObject),
}

pub open spec fn value_view(v: JsonValue) -> JsonValueView
    decreases v,
{
    match v {
        JsonValue::Null => JsonValueView::Null,
        JsonValue::Boolean(b) => JsonValueView::Boolean(b),
        JsonValue::Number(s) => JsonValueView::Number(s@),
        JsonValue::Text(s) => JsonValueView::Text(s@),
        JsonValue::Array(a) => JsonValueView::Array(
            Seq::new(
                a@.len(),
                |i: int|
                    if 0 <= i < a@.len() {
                        value_view(a@[i])
                    } else {
                        JsonValueView::Null
                    },
            ),
        ),
        JsonValue::Object(o) => JsonValueView::Object(o.view()),
    }
}

impl View for JsonValue {
    type V = JsonValueView;

    open spec fn view(&self) -> JsonValueView {
        value_view(*self)
    }
}

/// The outcome of a parse, taken by view.
pub open spec fn value_result(r: Result<JsonValue, JsonError>) -> Result<JsonValueView, JsonErrorView> {
    match r {
        Ok(v) => Ok(v@),
        Err(e) => Err(e@),
    }
}

/// The views of a sequence of values.
pub open spec fn values_view(a: Seq<JsonValue>) -> Seq<JsonValueView> {
    Seq::new(a.len(), |i: int| value_view(a[i]))
}

pub proof fn lemma_array_view(a: Vec<JsonValue>)
    ensures
        JsonValue::Array(a)@ == JsonValueView::Array(values_view(a@)),
{
    let w = JsonValue::Array(a);
    assert(values_view(a@) =~= Seq::new(
        a@.len(),
        |i: int|
            if 0 <= i < a@.len() {
                value_view(a@[i])
            } else {
                JsonValueView::Null
            },
    ));
    match value_view(w) {
        JsonValueView::Array(s) => assert(s =~= values_view(a@)),
        _ => {},
    }
}

// ---------------------------------------------------------------------------
// Object entries
// ---------------------------------------------------------------------------

/// The index of the first entry with key `k`, or -1.
pub open spec fn key_index(e: Seq<(Seq<char>, JsonValueView)>, k: Seq<char>) -> int
    decreases e.len(),
{
    if e.len() == 0 {
        -1
    } else if key_index(e.drop_last(), k) >= 0 {
        key_index(e.drop_last(), k)
    } else if e.last().0 == k {
        e.len() - 1
    } else {
        -1
    }
}

/// The entries after inserting `k` with value `v`: the value of an existing
/// entry for `k` is replaced in place, otherwise a new entry goes at the end.
pub open spec fn obj_insert(
    e: Seq<(Seq<char>, JsonValueView)>,
    k: Seq<char>,
    v: JsonValueView,
) -> Seq<(Seq<char>, JsonValueView)> {
    if key_index(e, k) >= 0 {
        e.update(key_index(e, k), (k, v))
    } else {
        e.push((k, v))
    }
}

/// The value stored for `k`, if any.
pub open spec fn obj_get(e: Seq<(Seq<char>, JsonValueView)>, k: Seq<char>) -> Option<JsonValueView> {
    if key_index(e, k) >= 0 {
        Some(e[key_index(e, k)].1)
    } else {
        None
    }
}

/// No key occurs twice.
pub open spec fn keys_unique(e: Seq<(Seq<char>, JsonValueView)>) -> bool {
    forall|i: int, j: int| 0 <= i < j < e.len() ==> #[trigger] e[i].0 != #[trigger] e[j].0
}

pub proof fn lemma_key_index(e: Seq<(Seq<char>, JsonValueView)>, k: Seq<char>)
    ensures
        -1 <= key_index(e, k) < e.len(),
        key_index(e, k) >= 0 ==> e[key_index(e, k)].0 == k,
        key_index(e, k) >= 0 ==> forall|j: int| 0 <= j < key_index(e, k) ==> #[trigger] e[j].0 != k,
        key_index(e, k) < 0 ==> forall|j: int| 0 <= j < e.len() ==> #[trigger] e[j].0 != k,
    decreases e.len(),
{
    if e.len() > 0 {
        lemma_key_index(e.drop_last(), k);
        assert forall|j: int| 0 <= j < e.len() - 1 implies #[trigger] e[j] == e.drop_last()[j] by {}
    }
}

pub proof fn lemma_insert_unique(e: Seq<(Seq<char>, JsonValueView)>, k: Seq<char>, v: JsonValueView)
    requires
        keys_unique(e),
    ensures
        keys_unique(obj_insert(e, k, v)),
        obj_get(obj_insert(e, k, v), k) == Some(v),
        forall|k2: Seq<char>| k2 != k ==> obj_get(obj_insert(e, k, v), k2) == obj_get(e, k2),
{
    lemma_key_index(e, k);
    let e2 = obj_insert(e, k, v);
    lemma_key_index(e2, k);
    if key_index(e, k) >= 0 {
        assert(e2[key_index(e, k)].0 == k);
    } else {
        assert(e2[e.len() as int].0 == k);
    }
    assert(key_index(e2, k) == (if key_index(e, k) >= 0 { key_index(e, k) } else { e.len() as int })) by {
        let ki = if key_index(e, k) >= 0 { key_index(e, k) } else { e.len() as int };
        if key_index(e2, k) < ki {
            assert(e2[key_index(e2, k)] == e[key_index(e2, k)]);
        }
    }
    assert forall|k2: Seq<char>| k2 != k implies obj_get(e2, k2) == obj_get(e, k2) by {
        lemma_key_index(e, k2);
        lemma_key_index(e2, k2);
        if key_index(e, k2) >= 0 {
            assert(e2[key_index(e, k2)].0 == k2);
        }
        if key_index(e2, k2) >= 0 {
            assert(e[key_index(e2, k2)].0 == k2);
        }
    }
}

impl JsonObject {
    /// The entries, keys and values taken by view, in insertion order.
    pub closed spec fn view(self) -> Seq<(Seq<char>, JsonValueView)>
        decreases self,
    {
        Seq::new(
            self.entries@.len(),
            |i: int|
                if 0 <= i < self.entries@.len() {
                    (self.entries@[i].0@, value_view(self.entries@[i].1))
                } else {
                    (Seq::empty(), JsonValueView::Null)
                },
        )
    }

    /// No key occurs twice.
    #[verifier::type_invariant]
    spec fn keys_distinct(self) -> bool {
        keys_unique(self@)
    }

    /// An empty object.
    pub fn new() -> (o: Self)
        ensures
            o@ == Seq::<(Seq<char>, JsonValueView)>::empty(),
            keys_unique(o@),
    {
        let o = JsonObject { entries: Vec::new() };
        assert(o@ =~= Seq::<(Seq<char>, JsonValueView)>::empty());
        o
    }

    /// The number of entries.
    pub fn len(&self) -> (n: usize)
        ensures
            n == self@.len(),
    {
        self.entries.len()
    }

    /// Whether the object has no entries.
    pub fn is_empty(&self) -> (b: bool)
        ensures
            b == (self@.len() == 0),
    {
        self.entries.len() == 0
    }

    /// The entries in insertion order; no key occurs twice.
    pub fn entries(&self) -> (r: &Vec<(String, JsonValue)>)
        ensures
            r@.len() == self@.len(),
            forall|i: int| 0 <= i < r@.len() ==> (#[trigger] r@[i].0@, r@[i].1@) == self@[i],
            keys_unique(self@),
    {
        proof {
            use_type_invariant(self);
        }
        &self.entries
    }

    /// Inserts `value` under `key`; an existing value for `key` is replaced.
    pub fn insert(&mut self, key: String, value: JsonValue)
        ensures
            final(self)@ == obj_insert(old(self)@, key@, value@),
            keys_unique(final(self)@),
    {
        proof {
            use_type_invariant(&*self);
        }
        let ghost e = old(self)@;
        let ghost k = key@;
        let ghost v = value@;
        proof {
            lemma_key_index(e, k);
            lemma_insert_unique(e, k, v);
        }
        let mut entries: Vec<(String, JsonValue)> = Vec::new();
        std::mem::swap(&mut entries, &mut self.entries);
        assert((JsonObject { entries: entries })@ == e);
        let mut i: usize = 0;
        let mut found = false;
        while i < entries.len()
            invariant
                (JsonObject { entries: entries })@ == e,
                k == key@,
                i <= entries@.len(),
                forall|j: int| 0 <= j < i ==> #[trigger] e[j].0 != k,
                found ==> i < entries@.len() && e[i as int].0 == k,
            ensures
                !found ==> i == entries@.len(),
            decreases entries@.len() - i - (if found { 1int } else { 0 }),
        {
            assert(e[i as int].0 == entries@[i as int].0@);
            if str_eq(entries[i].0.as_str(), key.as_str()) {
                found = true;
                break;
            }
            i = i + 1;
        }
        if found {
            assert(key_index(e, k) == i) by {
                lemma_key_index(e, k);
                if key_index(e, k) < i {
                    assert(e[key_index(e, k)].0 != k);
                }
            }
            entries.set(i, (key, value));
        } else {
            assert(key_index(e, k) < 0) by {
                lemma_key_index(e, k);
                if key_index(e, k) >= 0 {
                    assert(e[key_index(e, k)].0 == k);
                }
            }
            entries.push((key, value));
        }
        assert((JsonObject { entries: entries })@ =~= obj_insert(e, k, v));
        self.entries = entries;
    }

    /// The value stored under `key`, if any.
    pub fn get(&self, key: &str) -> (r: Option<&JsonValue>)
        ensures
            match r {
                Some(v) => obj_get(self@, key@) == Some(v@),
                None => obj_get(self@, key@) is None,
            },
    {
        let ghost e = self@;
        proof {
            lemma_key_index(e, key@);
        }
        let mut i: usize = 0;
        while i < self.entries.len()
            invariant
                self@ == e,
                i <= self.entries@.len(),
                forall|j: int| 0 <= j < i ==> #[trigger] e[j].0 != key@,
            decreases self.entries@.len() - i,
        {
            assert(self@[i as int] == (self.entries@[i as int].0@, self.entries@[i as int].1@));
            if str_eq(self.entries[i].0.as_str(), key) {
                assert(e[i as int].0 == key@);
                assert(key_index(e, key@) == i) by {
                    lemma_key_index(e, key@);
                    if key_index(e, key@) < i {
                        assert(e[key_index(e, key@)].0 != key@);
                    }
                }
                return Some(&self.entries[i].1);
            }
            i = i + 1;
        }
        None
    }
}

impl Default for JsonObject {
    fn default() -> (o: Self)
        ensures
            o@ == Seq::<(Seq<char>, JsonValueView)>::empty(),
    {
        JsonObject::new()
    }
}


// ---------------------------------------------------------------------------
// Accessors
// ---------------------------------------------------------------------------

impl JsonValue {
    /// Whether this is `null`.
    pub fn is_null(&self) -> (b: bool)
        ensures
            b == (self@ is Null),
    {
        match self {
            JsonValue::Null => true,
            _ => false,
        }
    }

    /// The boolean, if this is a boolean.
    pub fn as_bool(&self) -> (r: Option<bool>)
        ensures
            r == (match self@ {
                JsonValueView::Boolean(b) => Some(b),
                _ => None,
            }),
    {
        match self {
            JsonValue::Boolean(b) => Some(*b),
            _ => None,
        }
    }

    /// The text of the number literal, if this is a number.
    pub fn as_number(&self) -> (r: Option<&str>)
        ensures
            match self@ {
                JsonValueView::Number(t) => r is Some && r->0@ == t,
                _ => r is None,
            },
    {
        match self {
            JsonValue::Number(t) => Some(t.as_str()),
            _ => None,
        }
    }

    /// The string, if this is a string.
    pub fn as_str(&self) -> (r: Option<&str>)
        ensures
            match self@ {
                JsonValueView::Text(t) => r is Some && r->0@ == t,
                _ => r is None,
            },
    {
        match self {
            JsonValue::Text(t) => Some(t.as_str()),
            _ => None,
        }
    }

    /// The elements, if this is an array.
    pub fn as_array(&self) -> (r: Option<&Vec<JsonValue>>)
        ensures
            r == (match self {
                JsonValue::Array(a) => Some(a),
                _ => None,
            }),
            match self@ {
                JsonValueView::Array(items) => r is Some && values_view(r->0@) == items,
                _ => r is None,
            },
    {
        proof {
            if let JsonValue::Array(a) = self {
                lemma_array_view(*a);
            }
        }
        match self {
            JsonValue::Array(a) => Some(a),
            _ => None,
        }
    }

    /// The object, if this is an object.
    pub fn as_object(&self) -> (r: Option<&JsonObject>)
        ensures
            match self@ {
                JsonValueView::Object(e) => r is Some && r->0@ == e,
                _ => r is None,
            },
    {
        match self {
            JsonValue::Object(o) => Some(o),
            _ => None,
        }
    }

    /// The value under `key`, if this is an object that has one.
    pub fn get(&self, key: &str) -> (r: Option<&JsonValue>)
        ensures
            match self@ {
                JsonValueView::Object(e) => match r {
                    Some(v) => obj_get(e, key@) == Some(v@),
                    None => obj_get(e, key@) is None,
                },
                _ => r is None,
            },
    {
        match self {
            JsonValue::Object(o) => o.get(key),
            _ => None,
        }
    }

    /// The element at `index`, if this is an array that long.
    pub fn get_index(&self, index: usize) -> (r: Option<&JsonValue>)
        ensures
            match self@ {
                JsonValueView::Array(items) => match r {
                    Some(v) => index < items.len() && v@ == items[index as int],
                    None => index >= items.len(),
                },
                _ => r is None,
            },
    {
        match self {
            JsonValue::Array(a) => {
                proof {
                    lemma_array_view(*a);
                }
                if index < a.len() {
                    Some(&a[index])
                } else {
                    None
                }
            },
            _ => None,
        }
    }
}

// ---------------------------------------------------------------------------
// Serialization
// ---------------------------------------------------------------------------

/// The characters a string character is written as inside a JSON string
/// literal: `"`, `\`, newline, carriage return and tab are escaped.
pub open spec fn escape_char(c: char) -> Seq<char> {
    if c == '"' {
        seq!['\\', '"']
    } else if c == '\\' {
        seq!['\\', '\\']
    } else if c == '\n' {
        seq!['\\', 'n']
    } else if c == '\r' {
        seq!['\\', 'r']
    } else if c == '\t' {
        seq!['\\', 't']
    } else {
        seq![c]
    }
}

/// A text with every character escaped as `escape_char` says.
pub open spec fn escape_text(s: Seq<char>) -> Seq<char>
    decreases s.len(),
{
    if s.len() == 0 {
        Seq::empty()
    } else {
        escape_text(s.drop_last()) + escape_char(s.last())
    }
}

/// A text as a JSON string literal.
pub open spec fn quoted(s: Seq<char>) -> Seq<char> {
    seq!['"'] + escape_text(s) + seq!['"']
}

/// The compact JSON text of a value: no whitespace, members in entry order.
pub open spec fn json_text(v: JsonValueView) -> Seq<char>
    decreases v,
{
    match v {
        JsonValueView::Null => "null"@,
        JsonValueView::Boolean(b) => if b {
            "true"@
        } else {
            "false"@
        },
        JsonValueView::Number(t) => t,
        JsonValueView::Text(s) => quoted(s),
        JsonValueView::Array(items) => seq!['['] + items_text(items) + seq![']'],
        JsonValueView::Object(e) => seq!['{'] + members_text(e) + seq!['}'],
    }
}

/// Array elements as JSON text, separated by commas.
pub open spec fn items_text(items: Seq<JsonValueView>) -> Seq<char>
    decreases items,
{
    if items.len() == 0 {
        Seq::empty()
    } else if items.len() == 1 {
        json_text(items[0])
    } else {
        items_text(items.drop_last()) + seq![','] + json_text(items.last())
    }
}

/// Object members as JSON text (`"key":value`), separated by commas.
pub open spec fn members_text(e: Seq<(Seq<char>, JsonValueView)>) -> Seq<char>
    decreases e,
{
    if e.len() == 0 {
        Seq::empty()
    } else if e.len() == 1 {
        quoted(e[0].0) + seq![':'] + json_text(e[0].1)
    } else {
        members_text(e.drop_last()) + seq![','] + quoted(e.last().0) + seq![':'] + json_text(
            e.last().1,
        )
    }
}

/// Escapes `s` for use inside a JSON string literal.
pub fn escape_json_string(s: &str) -> (r: String)
    ensures
        r@ == escape_text(s@),
{
    broadcast use vstd::string::group_string_axioms;

    let mut escaped = String::new();
    for c in it: s.chars()
        invariant
            it.seq() == s@,
            escaped@ == escape_text(s@.take(it.index())),
    {
        assert(s@.take(it.index() + 1).drop_last() == s@.take(it.index()));
        if c == '"' {
            escaped.push('\\');
            escaped.push('"');
        } else if c == '\\' {
            escaped.push('\\');
            escaped.push('\\');
        } else if c == '\n' {
            escaped.push('\\');
            escaped.push('n');
        } else if c == '\r' {
            escaped.push('\\');
            escaped.push('r');
        } else if c == '\t' {
            escaped.push('\\');
            escaped.push('t');
        } else {
            escaped.push(c);
        }
    }
    assert(s@.take(s@.len() as int) == s@);
    escaped
}

fn write_quoted(out: &mut String, s: &str)
    ensures
        final(out)@ == old(out)@ + quoted(s@),
{
    out.push('"');
    let e = escape_json_string(s);
    push_text(out, e.as_str());
    out.push('"');
    assert(final(out)@ =~= old(out)@ + quoted(s@));
}

impl JsonValue {
    /// Appends the compact JSON text of this value to `out`.
    pub fn write_json(&self, out: &mut String)
        ensures
            final(out)@ == old(out)@ + json_text(self@),
        decreases self,
    {
        match self {
            JsonValue::Null => push_text(out, "null"),
            JsonValue::Boolean(b) => {
                if *b {
                    push_text(out, "true")
                } else {
                    push_text(out, "false")
                }
            },
            JsonValue::Number(t) => push_text(out, t.as_str()),
            JsonValue::Text(s) => write_quoted(out, s.as_str()),
            JsonValue::Array(a) => {
                proof {
                    lemma_array_view(*a);
                }
                let ghost items = values_view(a@);
                let ghost start = out@;
                out.push('[');
                let mut i: usize = 0;
                while i < a.len()
                    invariant
                        i <= a@.len(),
                        *self == JsonValue::Array(*a),
                        items == values_view(a@),
                        out@ == start + seq!['['] + items_text(items.take(i as int)),
                    decreases a@.len() - i,
                {
                    let ghost before = out@;
                    if i > 0 {
                        out.push(',');
                    }
                    assert(decreases_to!(*self => a@[i as int])) by {
                        assert(self->Array_0 == *a);
                        assert(decreases_to!(*self => self->Array_0));
                        assert(decreases_to!(*a => a@));
                        assert(decreases_to!(a@ => a@[i as int]));
                    }
                    a[i].write_json(out);
                    proof {
                        let t = items.take(i + 1);
                        assert(t.drop_last() =~= items.take(i as int));
                        assert(t.last() == a@[i as int]@);
                        if i == 0 {
                            assert(items.take(0) =~= Seq::<JsonValueView>::empty());
                        }
                    }
                    assert(out@ =~= start + seq!['['] + items_text(items.take(i + 1)));
                    i = i + 1;
                }
                out.push(']');
                assert(items.take(a@.len() as int) =~= items);
                assert(out@ =~= start + json_text(self@));
            },
            JsonValue::Object(o) => o.write_json(out),
        }
    }

    /// The compact JSON text of this value.
    pub fn to_string(&self) -> (r: String)
        ensures
            r@ == json_text(self@),
    {
        let mut out = String::new();
        self.write_json(&mut out);
        assert(out@ =~= json_text(self@));
        out
    }
}

impl JsonObject {
    /// Appends the JSON text of this object to `out`.
    pub fn write_json(&self, out: &mut String)
        ensures
            final(out)@ == old(out)@ + seq!['{'] + members_text(self@) + seq!['}'],
        decreases self,
    {
        let ghost e = self@;
        let ghost start = out@;
        out.push('{');
        let mut i: usize = 0;
        while i < self.entries.len()
            invariant
                i <= self.entries@.len(),
                e == self@,
                out@ == start + seq!['{'] + members_text(e.take(i as int)),
            decreases self.entries@.len() - i,
        {
            if i > 0 {
                out.push(',');
            }
            assert(e[i as int] == (self.entries@[i as int].0@, self.entries@[i as int].1@));
            write_quoted(out, self.entries[i].0.as_str());
            out.push(':');
            self.entries[i].1.write_json(out);
            proof {
                let t = e.take(i + 1);
                assert(t.drop_last() =~= e.take(i as int));
                if i == 0 {
                    assert(e.take(0) =~= Seq::<(Seq<char>, JsonValueView)>::empty());
                }
            }
            assert(out@ =~= start + seq!['{'] + members_text(e.take(i + 1)));
            i = i + 1;
        }
        out.push('}');
        assert(e.take(self.entries@.len() as int) =~= e);
    }
}

} // verus!
