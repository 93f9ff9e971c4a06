//! JSON values and their canonical text: object keys in increasing order,
//! no whitespace.

use vstd::prelude::*;
use crate::text::{
    decimal, decimal_text, int_text, join, json_quote, json_quoted, key_less, key_lt,
    lemma_key_lt_total,
};

verus! {

broadcast use vstd::std_specs::vec::group_vec_axioms;

/// Mathematical model of a JSON value. An object is the sequence of its
/// entries (for a `JsonMap`, in increasing order of key).
pub enum Json {
    Null,
    Bool(bool),
    Int(int),
    /// A number that is not an integer, by the text that serde_json writes for it.
    Float(Seq<char>),
    Str(Seq<char>),
    Arr(Seq<Json>),
    Obj(Seq<(Seq<char>, Json)>),
}

/// How a number is held: a non-negative integer, a negative integer, or the
/// JSON text of a number that is not an integer.
#[derive(Clone, Debug, PartialEq, Eq)]
enum NumberRepr {
    PosInt(u64),
    NegInt(i64),
    Float(String),
}

/// A JSON number. As serde_json holds them, a non-negative integer is always
/// held as `u64` and only a negative one as `i64`, so two numbers with the
/// same value are the same number; any other number is held as its text.
#[derive(Debug, PartialEq, Eq)]
pub struct JsonNumber {
    repr: NumberRepr,
}

/// Text that cannot be read as an integer: it has a decimal point or an
/// exponent.
pub open spec fn float_like(t: Seq<char>) -> bool {
    exists|i: int| 0 <= i < t.len() && (t[i] == '.' || t[i] == 'e' || t[i] == 'E')
}

impl JsonNumber {
    #[verifier::type_invariant]
    spec fn held_canonically(self) -> bool {
        match self.repr {
            NumberRepr::NegInt(i) => i < 0,
            NumberRepr::Float(t) => float_like(t@),
            NumberRepr::PosInt(_) => true,
        }
    }

    /// The number as a JSON value.
    pub closed spec fn model(self) -> Json {
        match self.repr {
            NumberRepr::PosInt(u) => Json::Int(u as int),
            NumberRepr::NegInt(i) => Json::Int(i as int),
            NumberRepr::Float(t) => Json::Float(t@),
        }
    }

    /// The integer `u`.
    pub fn from_u64(u: u64) -> (n: JsonNumber)
        ensures
            n.model() == Json::Int(u as int),
    {
        JsonNumber { repr: NumberRepr::PosInt(u) }
    }

    /// The integer `i`.
    pub fn from_i64(i: i64) -> (n: JsonNumber)
        ensures
            n.model() == Json::Int(i as int),
    {
        if i < 0 {
            JsonNumber { repr: NumberRepr::NegInt(i) }
        } else {
            JsonNumber { repr: NumberRepr::PosInt(i as u64) }
        }
    }

    /// The number whose JSON text is `t`, when `t` has a decimal point or an
    /// exponent; `None` otherwise (an integer is made with `from_u64` or
    /// `from_i64`).
    pub fn from_float_text(t: String) -> (r: Option<JsonNumber>)
        ensures
            r is Some <==> float_like(t@),
            r matches Some(n) ==> n.model() == Json::Float(t@),
    {
        let n = t.as_str().unicode_len();
        let mut k: usize = 0;
        let mut found = false;
        while k < n
            invariant
                n == t@.len(),
                k <= n,
                found <==> exists|i: int| 0 <= i < k && (t@[i] == '.' || t@[i] == 'e' || t@[i] == 'E'),
            decreases n - k,
        {
            let c = t.as_str().get_char(k);
            if c == '.' || c == 'e' || c == 'E' {
                found = true;
            }
            k = k + 1;
        }
        if found {
            Some(JsonNumber { repr: NumberRepr::Float(t) })
        } else {
            None
        }
    }

    /// The number as a `u64`, when it is an integer in that range.
    pub fn as_u64(&self) -> (r: Option<u64>)
        ensures
            r == (match self.model() {
                Json::Int(v) => if 0 <= v <= u64::MAX { Some(v as u64) } else { None },
                _ => None,
            }),
    {
        proof { use_type_invariant(self); }
        match &self.repr {
            NumberRepr::PosInt(u) => Some(*u),
            _ => None,
        }
    }

    /// The number as an `i64`, when it is an integer in that range.
    pub fn as_i64(&self) -> (r: Option<i64>)
        ensures
            r == (match self.model() {
                Json::Int(v) => if i64::MIN <= v <= i64::MAX { Some(v as i64) } else { None },
                _ => None,
            }),
    {
        proof { use_type_invariant(self); }
        match &self.repr {
            NumberRepr::PosInt(u) => if *u <= 9223372036854775807u64 {
                Some(*u as i64)
            } else {
                None
            },
            NumberRepr::NegInt(i) => Some(*i),
            NumberRepr::Float(_) => None,
        }
    }

    /// The JSON text of a number that is not an integer.
    pub fn float_text(&self) -> (r: Option<&str>)
        ensures
            r is Some <==> self.model() is Float,
            r matches Some(t) ==> self.model() == Json::Float(t@),
    {
        match &self.repr {
            NumberRepr::Float(t) => Some(t.as_str()),
            _ => None,
        }
    }
}

/// A JSON value.
#[derive(Debug, PartialEq, Eq)]
pub enum JsonValue {
    Null,
    Bool(bool),
    Number(JsonNumber),
    String(String),
    Array(Vec<JsonValue>),
    Object(JsonMap),
}

/// A JSON object: entries in strictly increasing order of key (as Rust
/// orders strings), so each key occurs once and two objects with the same
/// members are equal whatever order they were inserted in.
#[derive(Debug, PartialEq, Eq)]
pub struct JsonMap {
    entries: Vec<(String, JsonValue)>,
}

/// The keys of `es` increase strictly.
pub open spec fn entries_sorted(es: Seq<(Seq<char>, Json)>) -> bool {
    forall|i: int, j: int| 0 <= i < j < es.len() ==> key_lt(#[trigger] es[i].0, #[trigger] es[j].0)
}

/// Every object in `v`, at every depth, has its keys in strictly
/// increasing order, as every `JsonMap` holds them.
pub open spec fn sorted_json(v: Json) -> bool
    decreases v,
{
    match v {
        Json::Arr(xs) => forall|i: int| 0 <= i < xs.len() ==> sorted_json(#[trigger] xs[i]),
        Json::Obj(es) => {
            &&& entries_sorted(es)
            &&& forall|i: int| 0 <= i < es.len() ==> sorted_json(#[trigger] es[i].1)
        },
        _ => true,
    }
}

impl JsonMap {
    #[verifier::type_invariant]
    spec fn keys_increase(self) -> bool {
        forall|i: int, j: int|
            0 <= i < j < self.entries@.len() ==> key_lt(#[trigger] self.entries@[i].0@, #[trigger] self.entries@[j].0@)
    }

    /// The entries of the object, keys and values by their models.
    pub closed spec fn model(self) -> Seq<(Seq<char>, Json)>
        decreases self,
    {
        Seq::new(
            self.entries@.len(),
            |i: int|
                if 0 <= i < self.entries@.len() {
                    (self.entries@[i].0@, self.entries@[i].1.model())
                } else {
                    (Seq::empty(), Json::Null)
                },
        )
    }
}

impl JsonValue {
    /// The mathematical model of this value.
    pub open spec fn model(self) -> Json
        decreases self,
    {
        match self {
            JsonValue::Null => Json::Null,
            JsonValue::Bool(b) => Json::Bool(b),
            JsonValue::Number(n) => n.model(),
            JsonValue::String(s) => Json::Str(s@),
            JsonValue::Array(items) => Json::Arr(items_model(items@)),
            JsonValue::Object(m) => Json::Obj(m.model()),
        }
    }
}

/// Models of a sequence of values.
pub open spec fn items_model(items: Seq<JsonValue>) -> Seq<Json>
    decreases items,
{
    Seq::new(
        items.len(),
        |i: int|
            if 0 <= i < items.len() {
                items[i].model()
            } else {
                Json::Null
            },
    )
}

/// `k` lies above the lower bound `lo` (every key does when there is none).
pub open spec fn above(lo: Option<Seq<char>>, k: Seq<char>) -> bool {
    match lo {
        None => true,
        Some(l) => key_lt(l, k),
    }
}

/// `keys[j]` is the smallest of the keys above `lo`.
pub open spec fn is_next(keys: Seq<Seq<char>>, lo: Option<Seq<char>>, j: int) -> bool {
    &&& 0 <= j < keys.len()
    &&& above(lo, keys[j])
    &&& forall|i: int|
        0 <= i < keys.len() && above(lo, #[trigger] keys[i]) ==> !key_lt(keys[i], keys[j])
}

/// Indices of `keys` in increasing order of key, starting above `lo`, at most
/// `fuel` of them.
pub open spec fn key_order(keys: Seq<Seq<char>>, lo: Option<Seq<char>>, fuel: nat) -> Seq<int>
    decreases fuel,
{
    if fuel == 0 || !(exists|j: int| is_next(keys, lo, j)) {
        seq![]
    } else {
        let j = choose|j: int| is_next(keys, lo, j);
        seq![j] + key_order(keys, Some(keys[j]), (fuel - 1) as nat)
    }
}

pub open spec fn entry_keys(es: Seq<(Seq<char>, Json)>) -> Seq<Seq<char>> {
    Seq::new(es.len(), |i: int| es[i].0)
}

/// Canonical JSON text: object entries in increasing order of key, members
/// separated by commas, no whitespace.
pub open spec fn canon(v: Json) -> Seq<char>
    decreases v, 0int,
{
    match v {
        Json::Null => seq!['n', 'u', 'l', 'l'],
        Json::Bool(b) => if b {
            seq!['t', 'r', 'u', 'e']
        } else {
            seq!['f', 'a', 'l', 's', 'e']
        },
        Json::Int(i) => int_text(i),
        Json::Float(t) => t,
        Json::Str(s) => json_quoted(s),
        Json::Arr(items) => seq!['['] + join(item_texts(items, 0)) + seq![']'],
        Json::Obj(es) => seq!['{'] + join(
            entry_texts(es, key_order(entry_keys(es), None, es.len()), 0),
        ) + seq!['}'],
    }
}

/// Canonical texts of `items[i..]`.
pub open spec fn item_texts(items: Seq<Json>, i: int) -> Seq<Seq<char>>
    decreases items, items.len() - i,
{
    if 0 <= i < items.len() {
        seq![canon(items[i])] + item_texts(items, i + 1)
    } else {
        seq![]
    }
}

/// Canonical texts `"key":value` of the entries `es[ord[i]]`, `es[ord[i + 1]]`, ...
pub open spec fn entry_texts(es: Seq<(Seq<char>, Json)>, ord: Seq<int>, i: int) -> Seq<Seq<char>>
    decreases es, ord.len() - i,
{
    if 0 <= i < ord.len() && 0 <= ord[i] < es.len() {
        seq![json_quoted(es[ord[i]].0) + seq![':'] + canon(es[ord[i]].1)] + entry_texts(es, ord, i + 1)
    } else {
        seq![]
    }
}

pub open spec fn keys_of(es: Seq<(String, JsonValue)>) -> Seq<Seq<char>> {
    Seq::new(es.len(), |i: int| es[i].0@)
}

pub open spec fn bound_key(es: Seq<(String, JsonValue)>, lo: Option<usize>) -> Option<Seq<char>> {
    match lo {
        None => None,
        Some(l) => Some(es[l as int].0@),
    }
}

pub open spec fn keys_distinct(keys: Seq<Seq<char>>) -> bool {
    forall|i: int, j: int| 0 <= i < keys.len() && 0 <= j < keys.len() && i != j ==> keys[i] != keys[j]
}

/// With distinct keys there is at most one next key.
pub proof fn lemma_next_unique(keys: Seq<Seq<char>>, lo: Option<Seq<char>>, a: int, b: int)
    requires
        keys_distinct(keys),
        is_next(keys, lo, a),
        is_next(keys, lo, b),
    ensures
        a == b,
{
    lemma_key_lt_total(keys[a], keys[b]);
}

/// One step of `key_order`: the next key comes first.
pub proof fn lemma_key_order_step(keys: Seq<Seq<char>>, lo: Option<Seq<char>>, fuel: nat, j: int)
    requires
        keys_distinct(keys),
        fuel > 0,
        is_next(keys, lo, j),
    ensures
        key_order(keys, lo, fuel) == seq![j] + key_order(keys, Some(keys[j]), (fuel - 1) as nat),
{
    let c = choose|c: int| is_next(keys, lo, c);
    lemma_next_unique(keys, lo, c, j);
}

pub proof fn lemma_join_push(parts: Seq<Seq<char>>, k: int)
    requires
        0 <= k < parts.len(),
    ensures
        join(parts.take(k + 1)) == if k == 0 {
            parts[0]
        } else {
            join(parts.take(k)) + seq![','] + parts[k]
        },
{
    assert(parts.take(k + 1).drop_last() =~= parts.take(k));
}

/// The index of the smallest key above the key at `lo` (above every key when
/// `lo` is `None`), found by one pass over the entries.
fn next_entry(es: &Vec<(String, JsonValue)>, lo: Option<usize>) -> (r: Option<usize>)
    requires
        lo matches Some(l) ==> l < es@.len(),
    ensures
        r matches Some(j) ==> is_next(keys_of(es@), bound_key(es@, lo), j as int),
        r is None ==> forall|i: int|
            0 <= i < es@.len() ==> !above(bound_key(es@, lo), #[trigger] keys_of(es@)[i]),
{
    let ghost keys = keys_of(es@);
    let ghost lk = bound_key(es@, lo);
    let mut best: Option<usize> = None;
    let n = es.len();
    for i in 0..n
        invariant
            n == es@.len(),
            keys == keys_of(es@),
            lk == bound_key(es@, lo),
            lo matches Some(l) ==> l < es@.len(),
            best matches Some(b) ==> {
                &&& b < i
                &&& above(lk, keys[b as int])
                &&& forall|x: int| 0 <= x < i && above(lk, #[trigger] keys[x]) ==> !key_lt(keys[x], keys[b as int])
            },
            best is None ==> forall|x: int| 0 <= x < i ==> !above(lk, #[trigger] keys[x]),
    {
        let candidate = match lo {
            None => true,
            Some(l) => key_less(es[l].0.as_str(), es[i].0.as_str()),
        };
        if candidate {
            match best {
                None => {
                    proof {
                        crate::text::lemma_key_lt_irreflexive(keys[i as int]);
                    }
                    best = Some(i);
                },
                Some(b) => {
                    if key_less(es[i].0.as_str(), es[b].0.as_str()) {
                        proof {
                            assert forall|x: int| 0 <= x < i + 1 && above(lk, #[trigger] keys[x]) implies !key_lt(keys[x], keys[i as int]) by {
                                if x < i && key_lt(keys[x], keys[i as int]) {
                                    crate::text::lemma_key_lt_transitive(keys[x], keys[i as int], keys[b as int]);
                                }
                                if x == i {
                                    crate::text::lemma_key_lt_irreflexive(keys[x]);
                                }
                            }
                        }
                        best = Some(i);
                    }
                },
            }
        }
    }
    best
}

fn number_text(n: &JsonNumber) -> (s: String)
    ensures
        s@ == canon(JsonValue::Number(*n).model()),
{
    match n {
        JsonNumber { repr: NumberRepr::PosInt(u) } => decimal(*u),
        JsonNumber { repr: NumberRepr::NegInt(i) } => {
            if *i < 0 {
                let magnitude: u64 = (-(*i + 1)) as u64 + 1;
                let mut s = String::from_str("-");
                proof { reveal_strlit("-"); }
                let d = decimal(magnitude);
                s.append(d.as_str());
                s
            } else {
                decimal(*i as u64)
            }
        },
        JsonNumber { repr: NumberRepr::Float(t) } => String::from_str(t.as_str()),
    }
}

pub proof fn lemma_item_texts(items: Seq<Json>, i: int)
    requires
        0 <= i <= items.len(),
    ensures
        item_texts(items, i).len() == items.len() - i,
        forall|t: int| 0 <= t < items.len() - i ==> #[trigger] item_texts(items, i)[t] == canon(items[i + t]),
    decreases items.len() - i,
{
    if i < items.len() {
        lemma_item_texts(items, i + 1);
        assert forall|t: int| 0 <= t < items.len() - i implies #[trigger] item_texts(items, i)[t] == canon(items[i + t]) by {
            if t > 0 {
                assert(item_texts(items, i)[t] == item_texts(items, i + 1)[t - 1]);
            }
        }
    }
}

pub proof fn lemma_entry_texts(es: Seq<(Seq<char>, Json)>, ord: Seq<int>, i: int)
    requires
        0 <= i <= ord.len(),
        forall|k: int| 0 <= k < ord.len() ==> 0 <= #[trigger] ord[k] < es.len(),
    ensures
        entry_texts(es, ord, i).len() == ord.len() - i,
        forall|t: int| 0 <= t < ord.len() - i ==> #[trigger] entry_texts(es, ord, i)[t]
            == json_quoted(es[ord[i + t]].0) + seq![':'] + canon(es[ord[i + t]].1),
    decreases ord.len() - i,
{
    if i < ord.len() {
        lemma_entry_texts(es, ord, i + 1);
        assert forall|t: int| 0 <= t < ord.len() - i implies #[trigger] entry_texts(es, ord, i)[t]
            == json_quoted(es[ord[i + t]].0) + seq![':'] + canon(es[ord[i + t]].1) by {
            if t > 0 {
                assert(entry_texts(es, ord, i)[t] == entry_texts(es, ord, i + 1)[t - 1]);
            }
        }
    }
}

/// Every index that `key_order` lists is in range.
pub proof fn lemma_key_order_in_range(keys: Seq<Seq<char>>, lo: Option<Seq<char>>, fuel: nat)
    ensures
        forall|k: int| 0 <= k < key_order(keys, lo, fuel).len() ==> 0 <= #[trigger] key_order(keys, lo, fuel)[k] < keys.len(),
        key_order(keys, lo, fuel).len() <= fuel,
    decreases fuel,
{
    if fuel > 0 && exists|j: int| is_next(keys, lo, j) {
        let j = choose|j: int| is_next(keys, lo, j);
        lemma_key_order_in_range(keys, Some(keys[j]), (fuel - 1) as nat);
        let rest = key_order(keys, Some(keys[j]), (fuel - 1) as nat);
        assert forall|k: int| 0 <= k < key_order(keys, lo, fuel).len() implies 0 <= #[trigger] key_order(keys, lo, fuel)[k] < keys.len() by {
            if k > 0 {
                assert(key_order(keys, lo, fuel)[k] == rest[k - 1]);
            }
        }
    }
}

/// Canonical JSON text of `v` (the signing pre-image format): object keys
/// in increasing order, no whitespace.
pub fn canonicalize(v: &JsonValue) -> (s: String)
    ensures
        s@ == canon(v.model()),
    decreases v,
{
    match v {
        JsonValue::Null => {
            proof { reveal_strlit("null"); }
            String::from_str("null")
        },
        JsonValue::Bool(b) => {
            if *b {
                proof { reveal_strlit("true"); }
                String::from_str("true")
            } else {
                proof { reveal_strlit("false"); }
                String::from_str("false")
            }
        },
        JsonValue::Number(n) => number_text(n),
        JsonValue::String(t) => json_quote(t.as_str()),
        JsonValue::Array(items) => {
            proof {
                assert(*v == JsonValue::Array(*items));
                assert(decreases_to!(*v => v->Array_0));
            }
            canonical_array(items)
        },
        JsonValue::Object(m) => {
            proof {
                assert(*v == JsonValue::Object(*m));
                assert(decreases_to!(*v => v->Object_0));
            }
            canonical_object(m)
        },
    }
}

fn canonical_array(items: &Vec<JsonValue>) -> (s: String)
    ensures
        s@ == canon(Json::Arr(items_model(items@))),
    decreases items,
{
    let ghost model_items = items_model(items@);
    assert(model_items.len() == items@.len());
    assert(forall|i: int| 0 <= i < items@.len() ==> #[trigger] model_items[i] == items@[i].model());
    let ghost parts = item_texts(model_items, 0);
    proof {
        lemma_item_texts(model_items, 0);
        reveal_strlit("[");
        reveal_strlit("]");
        reveal_strlit(",");
    }
    let mut s = String::from_str("[");
    let n = items.len();
    let mut k: usize = 0;
    while k < n
        invariant
            n == items@.len(),
            k <= n,
            parts.len() == n,
            forall|i: int| 0 <= i < n ==> #[trigger] parts[i] == canon(items@[i].model()),
            s@ == seq!['['] + join(parts.take(k as int)),
        decreases n - k,
    {
        let ghost s0 = s@;
        if k > 0 {
            proof { reveal_strlit(","); }
            s.append(",");
            assert(","@ =~= seq![',']);
        }
        proof {
            assert(decreases_to!(*items => items@));
            assert(decreases_to!(items@ => items@[k as int]));
        }
        let ghost prev = s@;
        let t = canonicalize(&items[k]);
        s.append(t.as_str());
        proof {
            lemma_join_push(parts, k as int);
            assert(t@ == parts[k as int]);
            if k == 0 {
                assert(parts.take(0) =~= Seq::<Seq<char>>::empty());
                assert(s@ =~= seq!['['] + join(parts.take(k + 1)));
            } else {
                assert(s@ =~= s0 + seq![','] + parts[k as int]);
                assert(s@ =~= seq!['['] + join(parts.take(k + 1)));
            }
        }
        k = k + 1;
    }
    s.append("]");
    assert(parts.take(n as int) =~= parts);
    s
}

fn canonical_object(m: &JsonMap) -> (s: String)
    ensures
        s@ == canon(Json::Obj(m.model())),
    decreases m,
{
    proof { use_type_invariant(m); }
    let es = &m.entries;
    let n = es.len();
    let ghost mes = m.model();
    let ghost keys = keys_of(es@);
    assert(mes.len() == n);
    assert(forall|i: int| 0 <= i < n ==> (#[trigger] mes[i]).0 == es@[i].0@ && mes[i].1 == es@[i].1.model());
    assert(keys =~= entry_keys(mes));
    proof { lemma_sorted_keys_distinct(keys); }
    let ghost ord = key_order(keys, None, n as nat);
    proof { lemma_key_order_in_range(keys, None, n as nat); }
    let ghost parts = entry_texts(mes, ord, 0);
    proof {
        lemma_entry_texts(mes, ord, 0);
        reveal_strlit("{");
        reveal_strlit("}");
        reveal_strlit(",");
        reveal_strlit(":");
    }
    let mut s = String::from_str("{");
    let mut step: usize = 0;
    let mut lo: Option<usize> = None;
    loop
        invariant
            n == es@.len(),
            es == &m.entries,
            mes == m.model(),
            mes.len() == n,
            forall|i: int| 0 <= i < n ==> (#[trigger] mes[i]).0 == es@[i].0@ && mes[i].1 == es@[i].1.model(),
            keys == keys_of(es@),
            keys_distinct(keys),
            step <= n,
            ord.len() >= step,
            lo is None <==> step == 0,
            lo matches Some(l) ==> l < n && l == ord[step - 1],
            ord.skip(step as int) == key_order(keys, bound_key(es@, lo), (n - step) as nat),
            forall|i: int| 0 <= i < ord.len() ==> 0 <= #[trigger] ord[i] < n,
            parts.len() == ord.len(),
            forall|t: int| 0 <= t < ord.len() ==> #[trigger] parts[t]
                == json_quoted(mes[ord[t]].0) + seq![':'] + canon(mes[ord[t]].1),
            s@ == seq!['{'] + join(parts.take(step as int)),
        ensures
            ord.len() == step,
            s@ == seq!['{'] + join(parts.take(step as int)),
        decreases n - step,
    {
        if step == n {
            assert(ord.skip(step as int).len() == 0);
            break;
        }
        match next_entry(es, lo) {
            None => {
                assert(ord.skip(step as int).len() == 0);
                break;
            },
            Some(j) => {
                proof {
                    lemma_key_order_step(keys, bound_key(es@, lo), (n - step) as nat, j as int);
                    assert(ord.skip(step as int).len() > 0);
                    assert(ord[step as int] == ord.skip(step as int)[0]);
                    assert(ord.skip(step + 1) =~= ord.skip(step as int).drop_first());
                }
                let ghost s0 = s@;
                proof {
                    reveal_strlit(",");
                    reveal_strlit(":");
                    assert(","@ =~= seq![',']);
                    assert(":"@ =~= seq![':']);
                }
                if step > 0 {
                    s.append(",");
                }
                let ghost s1 = s@;
                let q = json_quote(es[j].0.as_str());
                s.append(q.as_str());
                s.append(":");
                proof {
                    assert(decreases_to!(*m => m.entries));
                    assert(decreases_to!(m.entries => m.entries@));
                    assert(decreases_to!(m.entries@ => m.entries@[j as int]));
                    assert(decreases_to!(m.entries@[j as int] => m.entries@[j as int].1));
                }
                let t = canonicalize(&es[j].1);
                s.append(t.as_str());
                proof {
                    lemma_join_push(parts, step as int);
                    assert(parts[step as int] == json_quoted(mes[j as int].0) + seq![':'] + canon(mes[j as int].1));
                    assert(s@ =~= s1 + parts[step as int]);
                    if step == 0 {
                        assert(parts.take(0) =~= Seq::<Seq<char>>::empty());
                        assert(s@ =~= seq!['{'] + join(parts.take(step + 1)));
                    } else {
                        assert(s1 =~= s0 + seq![',']);
                        assert(s@ =~= seq!['{'] + join(parts.take(step + 1)));
                    }
                }
                lo = Some(j);
                step = step + 1;
            },
        }
    }
    s.append("}");
    assert(parts.take(step as int) =~= parts);
    s
}


/// `p` is where `k` belongs among the entries `es`: every key before it is
/// smaller than `k`, no key from it on is.
pub open spec fn is_insert_pos(es: Seq<(Seq<char>, Json)>, k: Seq<char>, p: int) -> bool {
    &&& 0 <= p <= es.len()
    &&& forall|i: int| 0 <= i < p ==> key_lt(#[trigger] es[i].0, k)
    &&& forall|i: int| p <= i < es.len() ==> !key_lt(#[trigger] es[i].0, k)
}

/// Inserting `k` with value `v` into the entries `es` (keys increasing): an
/// existing entry for `k` takes the new value in its place, otherwise the
/// entry goes where its key belongs in the order.
pub open spec fn map_insert(es: Seq<(Seq<char>, Json)>, k: Seq<char>, v: Json) -> Seq<(Seq<char>, Json)> {
    if exists|i: int| 0 <= i < es.len() && es[i].0 == k {
        es.update(choose|i: int| 0 <= i < es.len() && es[i].0 == k, (k, v))
    } else {
        es.insert(choose|p: int| is_insert_pos(es, k, p), (k, v))
    }
}

/// Keys in strictly increasing order are distinct.
pub proof fn lemma_sorted_keys_distinct(keys: Seq<Seq<char>>)
    requires
        forall|i: int, j: int| 0 <= i < j < keys.len() ==> key_lt(#[trigger] keys[i], #[trigger] keys[j]),
    ensures
        keys_distinct(keys),
{
    assert forall|i: int, j: int| 0 <= i < keys.len() && 0 <= j < keys.len() && i != j implies keys[i] != keys[j] by {
        crate::text::lemma_key_lt_irreflexive(keys[i]);
    }
}

impl JsonMap {
    /// An empty object.
    pub fn new() -> (m: JsonMap)
        ensures
            m.model() == Seq::<(Seq<char>, Json)>::empty(),
    {
        let m = JsonMap { entries: Vec::new() };
        assert(m.model() =~= Seq::<(Seq<char>, Json)>::empty());
        m
    }

    /// The entries, in increasing order of key.
    pub fn entries(&self) -> (es: &Vec<(String, JsonValue)>)
        ensures
            es@.len() == self.model().len(),
            forall|i: int|
                0 <= i < es@.len() ==> (#[trigger] es@[i]).0@ == self.model()[i].0 && es@[i].1.model()
                    == self.model()[i].1,
            entries_sorted(self.model()),
    {
        proof { use_type_invariant(self); }
        &self.entries
    }

    /// Number of entries.
    pub fn len(&self) -> (n: usize)
        ensures
            n == self.model().len(),
    {
        self.entries.len()
    }

    /// Sets `key` to `value`: an existing entry for `key` keeps its place and
    /// takes the new value, otherwise the entry is added where its key
    /// belongs in increasing order.
    pub fn insert(&mut self, key: String, value: JsonValue)
        ensures
            final(self).model() == map_insert(old(self).model(), key@, value.model()),
            entries_sorted(final(self).model()),
    {
        proof { use_type_invariant(&*self); }
        let ghost before = self.model();
        let mut es: Vec<(String, JsonValue)> = Vec::new();
        std::mem::swap(&mut es, &mut self.entries);
        let ghost es0 = es@;
        assert(before.len() == es0.len());
        assert(forall|i: int| 0 <= i < es0.len() ==> (#[trigger] before[i]).0 == es0[i].0@ && before[i].1 == es0[i].1.model());
        assert(forall|a: int, b: int| 0 <= a < b < es0.len() ==> key_lt(#[trigger] es0[a].0@, #[trigger] es0[b].0@));
        let n = es.len();
        let mut i: usize = 0;
        while i < n && key_less(es[i].0.as_str(), key.as_str())
            invariant
                n == es@.len(),
                es@ == es0,
                i <= n,
                forall|x: int| 0 <= x < i ==> key_lt(#[trigger] es0[x].0@, key@),
            decreases n - i,
        {
            i = i + 1;
        }
        let ghost k = key@;
        let ghost new_value = value.model();
        proof {
            assert forall|x: int| i <= x < n implies !key_lt(#[trigger] es0[x].0@, k) by {
                if x > i && key_lt(es0[x].0@, k) {
                    crate::text::lemma_key_lt_transitive(es0[i as int].0@, es0[x].0@, k);
                }
            }
        }
        let present = i < n && es[i].0 == key;
        if present {
            es.set(i, (key, value));
            proof {
                assert(before[i as int].0 == k);
                let c = choose|c: int| 0 <= c < before.len() && before[c].0 == k;
                assert(c == i) by {
                    if c < i {
                        crate::text::lemma_key_lt_irreflexive(k);
                    } else if c > i {
                        crate::text::lemma_key_lt_irreflexive(k);
                    }
                }
                assert forall|a: int, b: int| 0 <= a < b < es@.len() implies key_lt(#[trigger] es@[a].0@, #[trigger] es@[b].0@) by {
                    assert(es@[a].0@ == es0[a].0@);
                    assert(es@[b].0@ == es0[b].0@);
                }
            }
            self.entries = es;
            assert(self.model() =~= map_insert(before, k, new_value));
        } else {
            proof {
                assert forall|q: int| 0 <= q < before.len() implies before[q].0 != k by {
                    assert(before[q].0 == es0[q].0@);
                    if q < i {
                        crate::text::lemma_key_lt_irreflexive(k);
                    } else if q > i {
                        crate::text::lemma_key_lt_irreflexive(k);
                    }
                }
                assert(is_insert_pos(before, k, i as int));
                let p = choose|p: int| is_insert_pos(before, k, p);
                assert(p == i) by {
                    if p < i {
                        assert(key_lt(before[p].0, k));
                    } else if p > i {
                        assert(key_lt(before[i as int].0, k));
                    }
                }
            }
            es.insert(i, (key, value));
            proof {
                assert forall|a: int, b: int| 0 <= a < b < es@.len() implies key_lt(#[trigger] es@[a].0@, #[trigger] es@[b].0@) by {
                    if b < i {
                        assert(es@[a] == es0[a] && es@[b] == es0[b]);
                    } else if b == i {
                        assert(es@[a] == es0[a]);
                    } else if a == i {
                        assert(es@[b] == es0[b - 1]);
                        assert(es0[b - 1].0@ != k);
                        lemma_key_lt_total(es0[b - 1].0@, k);
                    } else if a < i {
                        assert(es@[a] == es0[a] && es@[b] == es0[b - 1]);
                    } else {
                        assert(es@[a] == es0[a - 1] && es@[b] == es0[b - 1]);
                    }
                }
            }
            self.entries = es;
            assert(self.model() =~= map_insert(before, k, new_value));
        }
    }
}


/// A copy of `v`.
fn clone_value(v: &JsonValue) -> (r: JsonValue)
    ensures
        r.model() == v.model(),
        sorted_json(v.model()),
    decreases v,
{
    match v {
        JsonValue::Null => JsonValue::Null,
        JsonValue::Bool(b) => JsonValue::Bool(*b),
        JsonValue::Number(n) => JsonValue::Number(clone_number(n)),
        JsonValue::String(t) => JsonValue::String(t.clone()),
        JsonValue::Array(items) => {
            proof {
                assert(*v == JsonValue::Array(*items));
                assert(decreases_to!(*v => v->Array_0));
            }
            let r = clone_items(items);
            proof {
                let ms = items_model(items@);
                assert forall|i: int| 0 <= i < ms.len() implies sorted_json(#[trigger] ms[i]) by {
                    assert(ms[i] == items@[i].model());
                }
                assert(v.model() == Json::Arr(ms));
            }
            JsonValue::Array(r)
        },
        JsonValue::Object(m) => {
            proof {
                assert(*v == JsonValue::Object(*m));
                assert(decreases_to!(*v => v->Object_0));
            }
            let r = clone_map(m);
            proof {
                assert(v.model() == Json::Obj(m.model()));
            }
            JsonValue::Object(r)
        },
    }
}

fn clone_number(n: &JsonNumber) -> (r: JsonNumber)
    ensures
        r.model() == n.model(),
{
    proof { use_type_invariant(n); }
    match &n.repr {
        NumberRepr::PosInt(u) => JsonNumber { repr: NumberRepr::PosInt(*u) },
        NumberRepr::NegInt(i) => JsonNumber { repr: NumberRepr::NegInt(*i) },
        NumberRepr::Float(t) => JsonNumber { repr: NumberRepr::Float(t.clone()) },
    }
}

fn clone_items(items: &Vec<JsonValue>) -> (r: Vec<JsonValue>)
    ensures
        items_model(r@) == items_model(items@),
        forall|i: int| 0 <= i < items@.len() ==> sorted_json(#[trigger] items@[i].model()),
    decreases items,
{
    let mut out: Vec<JsonValue> = Vec::new();
    let n = items.len();
    let mut k: usize = 0;
    while k < n
        invariant
            n == items@.len(),
            k <= n,
            out@.len() == k,
            forall|i: int| 0 <= i < k ==> (#[trigger] out@[i]).model() == items@[i].model(),
            forall|i: int| 0 <= i < k ==> sorted_json(#[trigger] items@[i].model()),
        decreases n - k,
    {
        proof {
            assert(decreases_to!(*items => items@));
            assert(decreases_to!(items@ => items@[k as int]));
        }
        let c = clone_value(&items[k]);
        out.push(c);
        k = k + 1;
    }
    assert(items_model(out@) =~= items_model(items@));
    out
}

fn clone_map(m: &JsonMap) -> (r: JsonMap)
    ensures
        r.model() == m.model(),
        entries_sorted(m.model()),
        forall|i: int| 0 <= i < m.model().len() ==> sorted_json(#[trigger] m.model()[i].1),
    decreases m,
{
    proof { use_type_invariant(m); }
    let es = &m.entries;
    let mut out: Vec<(String, JsonValue)> = Vec::new();
    let n = es.len();
    let mut k: usize = 0;
    while k < n
        invariant
            es == &m.entries,
            n == es@.len(),
            k <= n,
            out@.len() == k,
            forall|i: int|
                0 <= i < k ==> (#[trigger] out@[i]).0@ == es@[i].0@ && out@[i].1.model() == es@[i].1.model(),
            forall|i: int| 0 <= i < k ==> sorted_json(#[trigger] es@[i].1.model()),
        decreases n - k,
    {
        proof {
            assert(decreases_to!(*m => m.entries));
            assert(decreases_to!(m.entries => m.entries@));
            assert(decreases_to!(m.entries@ => m.entries@[k as int]));
            assert(decreases_to!(m.entries@[k as int] => m.entries@[k as int].1));
        }
        let key = es[k].0.clone();
        let value = clone_value(&es[k].1);
        out.push((key, value));
        k = k + 1;
    }
    proof {
        assert forall|a: int, b: int| 0 <= a < b < out@.len() implies key_lt(#[trigger] out@[a].0@, #[trigger] out@[b].0@) by {
            assert(out@[a].0@ == es@[a].0@);
            assert(out@[b].0@ == es@[b].0@);
        }
    }
    let r = JsonMap { entries: out };
    assert(r.model() =~= m.model());
    r
}

impl Clone for JsonNumber {
    /// A copy with the same value.
    fn clone(&self) -> (r: Self)
        ensures
            r.model() == self.model(),
    {
        clone_number(self)
    }
}

impl Clone for JsonValue {
    /// A copy with the same model. (Cloning walks the whole value, and also
    /// shows that its objects keep their keys in increasing order.)
    fn clone(&self) -> (r: Self)
        ensures
            r.model() == self.model(),
            sorted_json(self.model()),
    {
        clone_value(self)
    }
}

impl Clone for JsonMap {
    /// A copy with the same entries.
    fn clone(&self) -> (r: Self)
        ensures
            r.model() == self.model(),
    {
        clone_map(self)
    }
}

proof fn lemma_entry_texts_match(
    a: Seq<(Seq<char>, Json)>,
    oa: Seq<int>,
    b: Seq<(Seq<char>, Json)>,
    ob: Seq<int>,
    i: int,
)
    requires
        0 <= i <= oa.len(),
        oa.len() == ob.len(),
        forall|k: int| 0 <= k < oa.len() ==> 0 <= #[trigger] oa[k] < a.len(),
        forall|k: int| 0 <= k < ob.len() ==> 0 <= #[trigger] ob[k] < b.len(),
        forall|k: int| 0 <= k < oa.len() ==> a[oa[k]] == b[#[trigger] ob[k]],
    ensures
        entry_texts(a, oa, i) == entry_texts(b, ob, i),
    decreases oa.len() - i,
{
    if i < oa.len() {
        lemma_entry_texts_match(a, oa, b, ob, i + 1);
        assert(a[oa[i]] == b[ob[i]]);
    }
}

/// The canonical text of an object does not depend on the order in which
/// its entries were inserted: two objects holding the same entries (each
/// key once) have the same canonical text.
pub proof fn law_canonical_order_independent(a: Seq<(Seq<char>, Json)>, b: Seq<(Seq<char>, Json)>)
    requires
        keys_distinct(entry_keys(a)),
        keys_distinct(entry_keys(b)),
        a.to_multiset() == b.to_multiset(),
    ensures
        canon(Json::Obj(a)) == canon(Json::Obj(b)),
{
    broadcast use vstd::seq_lib::group_to_multiset_ensures;

    let ka = entry_keys(a);
    let kb = entry_keys(b);
    assert(a.to_multiset().len() == a.len());
    assert(b.to_multiset().len() == b.len());
    assert(ka.to_set() =~= kb.to_set()) by {
        assert forall|x: Seq<char>| ka.to_set().contains(x) implies kb.to_set().contains(x) by {
            let i = choose|i: int| 0 <= i < ka.len() && ka[i] == x;
            assert(a.contains(a[i]));
            assert(b.to_multiset().count(a[i]) > 0);
            let p = choose|p: int| 0 <= p < b.len() && b[p] == a[i];
            assert(kb[p] == x);
        }
        assert forall|x: Seq<char>| kb.to_set().contains(x) implies ka.to_set().contains(x) by {
            let j = choose|j: int| 0 <= j < kb.len() && kb[j] == x;
            assert(b.contains(b[j]));
            assert(a.to_multiset().count(b[j]) > 0);
            let p = choose|p: int| 0 <= p < a.len() && a[p] == b[j];
            assert(ka[p] == x);
        }
    }
    lemma_key_orders_agree(ka, kb, None, a.len());
    lemma_key_order_in_range(ka, None, a.len());
    lemma_key_order_in_range(kb, None, b.len());
    let oa = key_order(ka, None, a.len());
    let ob = key_order(kb, None, b.len());
    assert forall|k: int| 0 <= k < oa.len() implies a[oa[k]] == b[#[trigger] ob[k]] by {
        assert(a.contains(a[oa[k]]));
        assert(b.to_multiset().count(a[oa[k]]) > 0);
        let p = choose|p: int| 0 <= p < b.len() && b[p] == a[oa[k]];
        assert(kb[p] == kb[ob[k]]);
    }
    lemma_entry_texts_match(a, oa, b, ob, 0);
}


/// Indices of the keys above `lo`.
pub open spec fn candidates(keys: Seq<Seq<char>>, lo: Option<Seq<char>>) -> Set<int> {
    Set::new(|i: int| 0 <= i < keys.len() && above(lo, keys[i]))
}

/// `key_order` lists keys above `lo`, in strictly increasing order.
proof fn lemma_key_order_sorted(keys: Seq<Seq<char>>, lo: Option<Seq<char>>, fuel: nat)
    ensures
        forall|a: int|
            0 <= a < key_order(keys, lo, fuel).len() ==> above(lo, keys[#[trigger] key_order(keys, lo, fuel)[a]]),
        forall|a: int, b: int|
            0 <= a < b < key_order(keys, lo, fuel).len() ==> key_lt(
                keys[#[trigger] key_order(keys, lo, fuel)[a]],
                keys[#[trigger] key_order(keys, lo, fuel)[b]],
            ),
    decreases fuel,
{
    if fuel > 0 && exists|j: int| is_next(keys, lo, j) {
        let j = choose|j: int| is_next(keys, lo, j);
        let rest = key_order(keys, Some(keys[j]), (fuel - 1) as nat);
        let ord = key_order(keys, lo, fuel);
        lemma_key_order_sorted(keys, Some(keys[j]), (fuel - 1) as nat);
        assert(ord == seq![j] + rest);
        assert forall|a: int| 0 <= a < ord.len() implies above(lo, keys[#[trigger] ord[a]]) by {
            if a > 0 {
                assert(ord[a] == rest[a - 1]);
                if let Some(l) = lo {
                    crate::text::lemma_key_lt_transitive(l, keys[j], keys[rest[a - 1]]);
                }
            }
        }
        assert forall|a: int, b: int| 0 <= a < b < ord.len() implies key_lt(keys[#[trigger] ord[a]], keys[#[trigger] ord[b]]) by {
            assert(ord[b] == rest[b - 1]);
            if a > 0 {
                assert(ord[a] == rest[a - 1]);
            }
        }
    }
}

/// Among the first `m` indices, when one is a candidate, some candidate has
/// the smallest key.
proof fn lemma_smallest_candidate(keys: Seq<Seq<char>>, lo: Option<Seq<char>>, m: int) -> (j: int)
    requires
        0 <= m <= keys.len(),
        exists|i: int| 0 <= i < m && above(lo, #[trigger] keys[i]),
    ensures
        0 <= j < m,
        above(lo, keys[j]),
        forall|i: int| 0 <= i < m && above(lo, #[trigger] keys[i]) ==> !key_lt(keys[i], keys[j]),
    decreases m,
{
    let last = m - 1;
    if exists|i: int| 0 <= i < last && above(lo, #[trigger] keys[i]) {
        let b = lemma_smallest_candidate(keys, lo, last);
        if above(lo, keys[last]) && key_lt(keys[last], keys[b]) {
            assert forall|i: int| 0 <= i < m && above(lo, #[trigger] keys[i]) implies !key_lt(keys[i], keys[last]) by {
                if i < last && key_lt(keys[i], keys[last]) {
                    crate::text::lemma_key_lt_transitive(keys[i], keys[last], keys[b]);
                }
                crate::text::lemma_key_lt_irreflexive(keys[last]);
            }
            last
        } else {
            b
        }
    } else {
        crate::text::lemma_key_lt_irreflexive(keys[last]);
        last
    }
}

/// With enough fuel, `key_order` lists every key above `lo`.
proof fn lemma_key_order_complete(keys: Seq<Seq<char>>, lo: Option<Seq<char>>, fuel: nat)
    requires
        keys_distinct(keys),
        candidates(keys, lo).finite(),
        fuel >= candidates(keys, lo).len(),
    ensures
        forall|i: int| 0 <= i < keys.len() && above(lo, keys[i]) ==> key_order(keys, lo, fuel).contains(i),
    decreases fuel,
{
    let c = candidates(keys, lo);
    if exists|i: int| 0 <= i < keys.len() && above(lo, #[trigger] keys[i]) {
        let m = lemma_smallest_candidate(keys, lo, keys.len() as int);
        assert(is_next(keys, lo, m));
        let j = choose|j: int| is_next(keys, lo, j);
        lemma_next_unique(keys, lo, j, m);
        assert(c.contains(j));
        assert(fuel > 0);
        let c2 = candidates(keys, Some(keys[j]));
        assert(c2 =~= c.remove(j)) by {
            assert forall|i: int| c2.contains(i) implies c.remove(j).contains(i) by {
                if let Some(l) = lo {
                    crate::text::lemma_key_lt_transitive(l, keys[j], keys[i]);
                }
                crate::text::lemma_key_lt_irreflexive(keys[j]);
            }
            assert forall|i: int| c.remove(j).contains(i) implies c2.contains(i) by {
                lemma_key_lt_total(keys[i], keys[j]);
            }
        }
        lemma_key_order_complete(keys, Some(keys[j]), (fuel - 1) as nat);
        let rest = key_order(keys, Some(keys[j]), (fuel - 1) as nat);
        let ord = key_order(keys, lo, fuel);
        assert(ord == seq![j] + rest);
        assert forall|i: int| 0 <= i < keys.len() && above(lo, keys[i]) implies ord.contains(i) by {
            if i == j {
                assert(ord[0] == j);
            } else {
                assert(c2.contains(i));
                assert(rest.contains(i));
                let x = choose|x: int| 0 <= x < rest.len() && rest[x] == i;
                assert(ord[x + 1] == i);
            }
        }
    }
}

/// The canonical order of an object's members: every key exactly once, in
/// strictly increasing order (Rust's order of strings, by UTF-8 bytes).
pub proof fn law_key_order_sorted_and_complete(keys: Seq<Seq<char>>)
    requires
        keys_distinct(keys),
    ensures
        key_order(keys, None, keys.len()).len() == keys.len(),
        forall|i: int| 0 <= i < keys.len() ==> key_order(keys, None, keys.len()).contains(i),
        forall|a: int, b: int|
            0 <= a < b < keys.len() ==> key_lt(
                keys[#[trigger] key_order(keys, None, keys.len())[a]],
                keys[#[trigger] key_order(keys, None, keys.len())[b]],
            ),
{
    let n = keys.len();
    let ord = key_order(keys, None, n);
    vstd::set_lib::lemma_int_range(0, n as int);
    assert(candidates(keys, None) =~= vstd::set_lib::set_int_range(0, n as int));
    lemma_key_order_complete(keys, None, n);
    lemma_key_order_sorted(keys, None, n);
    lemma_key_order_in_range(keys, None, n);
    assert(vstd::set_lib::set_int_range(0, n as int).subset_of(ord.to_set()));
    broadcast use vstd::seq_lib::seq_to_set_is_finite;
    vstd::set_lib::lemma_len_subset(vstd::set_lib::set_int_range(0, n as int), ord.to_set());
    ord.lemma_cardinality_of_set();
}


/// Keys listed in increasing order come out of `key_order` in that order.
pub proof fn lemma_sorted_key_order(keys: Seq<Seq<char>>, k: int)
    requires
        0 <= k <= keys.len(),
        forall|i: int, j: int| 0 <= i < j < keys.len() ==> key_lt(keys[i], keys[j]),
    ensures
        key_order(keys, if k == 0 { None } else { Some(keys[k - 1]) }, (keys.len() - k) as nat)
            =~= Seq::new((keys.len() - k) as nat, |i: int| k + i),
    decreases keys.len() - k,
{
    let n = keys.len();
    if k < n {
        let lo = if k == 0 { None } else { Some(keys[k - 1]) };
        assert forall|i: int| 0 <= i < n && crate::json::above(lo, #[trigger] keys[i]) implies !key_lt(keys[i], keys[k]) by {
            crate::text::lemma_key_lt_irreflexive(keys[i]);
            if i < k - 1 {
                crate::text::lemma_key_lt_transitive(keys[i], keys[k - 1], keys[i]);
            } else if i > k {
                if key_lt(keys[i], keys[k]) {
                    crate::text::lemma_key_lt_transitive(keys[k], keys[i], keys[k]);
                    crate::text::lemma_key_lt_irreflexive(keys[k]);
                }
            }
        }
        assert(is_next(keys, lo, k));
        assert(crate::json::keys_distinct(keys)) by {
            assert forall|i: int, j: int| 0 <= i < n && 0 <= j < n && i != j implies keys[i] != keys[j] by {
                crate::text::lemma_key_lt_irreflexive(keys[i]);
            }
        }
        crate::json::lemma_key_order_step(keys, lo, (n - k) as nat, k);
        lemma_sorted_key_order(keys, k + 1);
    }
}

/// `a` and `b` are the same JSON value up to the order of object members:
/// arrays agree element by element, objects (each key once) have the same
/// keys with equivalent values, everything else is equal.
pub open spec fn json_equiv(a: Json, b: Json) -> bool
    decreases a,
{
    match a {
        Json::Arr(xs) => match b {
            Json::Arr(ys) => xs.len() == ys.len() && forall|i: int|
                0 <= i < xs.len() ==> json_equiv(#[trigger] xs[i], ys[i]),
            _ => false,
        },
        Json::Obj(es) => match b {
            Json::Obj(fs) => {
                &&& keys_distinct(entry_keys(es))
                &&& keys_distinct(entry_keys(fs))
                &&& forall|j: int|
                    0 <= j < fs.len() ==> exists|i: int| 0 <= i < es.len() && #[trigger] es[i].0 == #[trigger] fs[j].0
                &&& forall|i: int|
                    0 <= i < es.len() ==> exists|j: int|
                        0 <= j < fs.len() && #[trigger] fs[j].0 == #[trigger] es[i].0 && json_equiv(es[i].1, fs[j].1)
            },
            _ => false,
        },
        _ => a == b,
    }
}

/// Two key sequences holding the same keys (each once) are put in the same
/// order by `key_order`.
pub proof fn lemma_key_orders_agree(ka: Seq<Seq<char>>, kb: Seq<Seq<char>>, lo: Option<Seq<char>>, fuel: nat)
    requires
        keys_distinct(ka),
        keys_distinct(kb),
        ka.to_set() == kb.to_set(),
    ensures
        key_order(ka, lo, fuel).len() == key_order(kb, lo, fuel).len(),
        forall|k: int|
            0 <= k < key_order(ka, lo, fuel).len() ==> ka[key_order(ka, lo, fuel)[k]] == kb[#[trigger] key_order(kb, lo, fuel)[k]],
    decreases fuel,
{
    if fuel > 0 {
        if exists|j: int| is_next(ka, lo, j) {
            let ja = choose|j: int| is_next(ka, lo, j);
            assert(0 <= ja < ka.len());
            assert(ka.to_set().contains(ka[ja]));
            let p = choose|p: int| 0 <= p < kb.len() && kb[p] == ka[ja];
            assert forall|i: int| 0 <= i < kb.len() && above(lo, #[trigger] kb[i]) implies !key_lt(kb[i], kb[p]) by {
                assert(kb.to_set().contains(kb[i]));
                let q = choose|q: int| 0 <= q < ka.len() && ka[q] == kb[i];
                assert(above(lo, ka[q]));
            }
            assert(is_next(kb, lo, p));
            let jb = choose|j: int| is_next(kb, lo, j);
            lemma_next_unique(kb, lo, p, jb);
            lemma_key_orders_agree(ka, kb, Some(ka[ja]), (fuel - 1) as nat);
            let ra = key_order(ka, Some(ka[ja]), (fuel - 1) as nat);
            let rb = key_order(kb, Some(kb[jb]), (fuel - 1) as nat);
            assert forall|k: int|
                0 <= k < key_order(ka, lo, fuel).len() implies ka[key_order(ka, lo, fuel)[k]]
                    == kb[#[trigger] key_order(kb, lo, fuel)[k]] by {
                if k > 0 {
                    assert(key_order(ka, lo, fuel)[k] == ra[k - 1]);
                    assert(key_order(kb, lo, fuel)[k] == rb[k - 1]);
                }
            }
        } else if exists|j: int| is_next(kb, lo, j) {
            let jb = choose|j: int| is_next(kb, lo, j);
            assert(0 <= jb < kb.len());
            assert(kb.to_set().contains(kb[jb]));
            let p = choose|p: int| 0 <= p < ka.len() && ka[p] == kb[jb];
            assert forall|i: int| 0 <= i < ka.len() && above(lo, #[trigger] ka[i]) implies !key_lt(ka[i], ka[p]) by {
                assert(ka.to_set().contains(ka[i]));
                let q = choose|q: int| 0 <= q < kb.len() && kb[q] == ka[i];
                assert(above(lo, kb[q]));
            }
            assert(is_next(ka, lo, p));
        }
    }
}

proof fn lemma_item_texts_equiv(xs: Seq<Json>, ys: Seq<Json>, i: int)
    requires
        0 <= i <= xs.len(),
        xs.len() == ys.len(),
        forall|k: int| 0 <= k < xs.len() ==> json_equiv(#[trigger] xs[k], ys[k]),
    ensures
        item_texts(xs, i) == item_texts(ys, i),
    decreases xs, xs.len() - i,
{
    if i < xs.len() {
        lemma_canon_equiv(xs[i], ys[i]);
        lemma_item_texts_equiv(xs, ys, i + 1);
    }
}

proof fn lemma_entry_texts_equiv(
    es: Seq<(Seq<char>, Json)>,
    oa: Seq<int>,
    fs: Seq<(Seq<char>, Json)>,
    ob: Seq<int>,
    i: int,
)
    requires
        0 <= i <= oa.len(),
        oa.len() == ob.len(),
        keys_distinct(entry_keys(fs)),
        forall|k: int| 0 <= k < oa.len() ==> 0 <= #[trigger] oa[k] < es.len(),
        forall|k: int| 0 <= k < ob.len() ==> 0 <= #[trigger] ob[k] < fs.len(),
        forall|k: int| 0 <= k < oa.len() ==> es[oa[k]].0 == fs[#[trigger] ob[k]].0,
        forall|x: int|
            0 <= x < es.len() ==> exists|j: int|
                0 <= j < fs.len() && #[trigger] fs[j].0 == #[trigger] es[x].0 && json_equiv(es[x].1, fs[j].1),
    ensures
        entry_texts(es, oa, i) == entry_texts(fs, ob, i),
    decreases es, oa.len() - i,
{
    if i < oa.len() {
        let x = oa[i];
        let j = choose|j: int| 0 <= j < fs.len() && fs[j].0 == es[x].0 && json_equiv(es[x].1, fs[j].1);
        assert(entry_keys(fs)[j] == entry_keys(fs)[ob[i]]);
        assert(j == ob[i]);
        lemma_canon_equiv(es[x].1, fs[j].1);
        lemma_entry_texts_equiv(es, oa, fs, ob, i + 1);
    }
}

proof fn lemma_canon_equiv(a: Json, b: Json)
    requires
        json_equiv(a, b),
    ensures
        canon(a) == canon(b),
    decreases a, 0int,
{
    match (a, b) {
        (Json::Arr(xs), Json::Arr(ys)) => {
            lemma_item_texts_equiv(xs, ys, 0);
        },
        (Json::Obj(es), Json::Obj(fs)) => {
            assert(a == Json::Obj(es) && b == Json::Obj(fs));
            let ka = entry_keys(es);
            let kb = entry_keys(fs);
            assert(ka.to_set() =~= kb.to_set()) by {
                assert forall|x: Seq<char>| ka.to_set().contains(x) implies kb.to_set().contains(x) by {
                    let i = choose|i: int| 0 <= i < ka.len() && ka[i] == x;
                    assert(es[i].0 == ka[i]);
                    let j = choose|j: int| 0 <= j < fs.len() && fs[j].0 == es[i].0 && json_equiv(es[i].1, fs[j].1);
                    assert(kb[j] == x);
                }
                assert forall|x: Seq<char>| kb.to_set().contains(x) implies ka.to_set().contains(x) by {
                    let j = choose|j: int| 0 <= j < kb.len() && kb[j] == x;
                    assert(fs[j].0 == kb[j]);
                    let i = choose|i: int| 0 <= i < es.len() && es[i].0 == fs[j].0;
                    assert(ka[i] == x);
                }
            }
            lemma_key_orders_agree(ka, kb, None, es.len());
            law_key_order_sorted_and_complete(ka);
            law_key_order_sorted_and_complete(kb);
            assert(ka.no_duplicates());
            assert(kb.no_duplicates());
            ka.unique_seq_to_set();
            kb.unique_seq_to_set();
            assert(es.len() == fs.len());
            lemma_key_order_in_range(ka, None, es.len());
            lemma_key_order_in_range(kb, None, fs.len());
            let oa = key_order(ka, None, es.len());
            let ob = key_order(kb, None, fs.len());
            assert forall|k: int| 0 <= k < oa.len() implies es[oa[k]].0 == fs[#[trigger] ob[k]].0 by {
                assert(ka[oa[k]] == kb[ob[k]]);
            }
            lemma_entry_texts_equiv(es, oa, fs, ob, 0);
        },
        _ => {},
    }
}

/// Canonical text is the same for JSON values that differ only in the order
/// of object members, at every depth.
pub proof fn law_canonical_equivalent(a: Json, b: Json)
    requires
        json_equiv(a, b),
    ensures
        canon(a) == canon(b),
{
    lemma_canon_equiv(a, b);
}


} // verus!
