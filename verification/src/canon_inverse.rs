//! The canonical JSON text determines the value it was written from: two
//! values without floating-point numbers (and with each key once per object)
//! that have the same canonical text are the same value up to the order of
//! object members.

use vstd::prelude::*;
use crate::json::{
    canon, entries_sorted, lemma_key_orders_agree, lemma_sorted_key_order, lemma_sorted_keys_distinct, sorted_json,
    entry_keys, entry_texts, item_texts, json_equiv, key_order, keys_distinct,
    law_key_order_sorted_and_complete, lemma_entry_texts, lemma_item_texts, lemma_key_order_in_range, Json,
};
use crate::text::{key_lt, decimal_text, digit_char, escaped, escaped_char, hex_digit_lower, int_text, join, json_quoted};

verus! {

/// The characters `0`-`9`.
pub open spec fn is_digit(c: char) -> bool {
    '0' <= c <= '9'
}

proof fn lemma_decimal_digits(n: nat)
    ensures
        decimal_text(n).len() >= 1,
        forall|i: int| 0 <= i < decimal_text(n).len() ==> is_digit(#[trigger] decimal_text(n)[i]),
    decreases n,
{
    if n >= 10 {
        lemma_decimal_digits(n / 10);
        let d = decimal_text(n / 10);
        assert forall|i: int| 0 <= i < decimal_text(n).len() implies is_digit(#[trigger] decimal_text(n)[i]) by {
            if i < d.len() {
                assert(decimal_text(n)[i] == d[i]);
            }
        }
    }
}

proof fn lemma_decimal_injective(m: nat, n: nat)
    requires
        decimal_text(m) == decimal_text(n),
    ensures
        m == n,
    decreases m,
{
    lemma_decimal_digits(m / 10);
    lemma_decimal_digits(n / 10);
    if m < 10 && n < 10 {
        assert(decimal_text(m)[0] == digit_char(m));
    } else if m < 10 {
        assert(decimal_text(n).len() >= 2);
    } else if n < 10 {
        assert(decimal_text(m).len() >= 2);
    } else {
        let a = decimal_text(m);
        assert(a.last() == digit_char(m % 10));
        assert(decimal_text(n).last() == digit_char(n % 10));
        assert(m % 10 == n % 10);
        assert(a.drop_last() =~= decimal_text(m / 10));
        assert(decimal_text(n).drop_last() =~= decimal_text(n / 10));
        lemma_decimal_injective(m / 10, n / 10);
    }
}

/// An integer's text: a minus sign exactly for negative values, digits
/// everywhere else.
proof fn lemma_int_text(i: int)
    ensures
        int_text(i).len() >= 1,
        i < 0 <==> int_text(i)[0] == '-',
        i >= 0 ==> is_digit(int_text(i)[0]),
        forall|k: int| 1 <= k < int_text(i).len() ==> is_digit(#[trigger] int_text(i)[k]),
{
    if i < 0 {
        lemma_decimal_digits((-i) as nat);
        let d = decimal_text((-i) as nat);
        assert forall|k: int| 1 <= k < int_text(i).len() implies is_digit(#[trigger] int_text(i)[k]) by {
            assert(int_text(i)[k] == d[k - 1]);
        }
    } else {
        lemma_decimal_digits(i as nat);
    }
}

proof fn lemma_int_text_injective(i: int, j: int)
    requires
        int_text(i) == int_text(j),
    ensures
        i == j,
{
    lemma_int_text(i);
    lemma_int_text(j);
    if i < 0 {
        assert(int_text(i).drop_first() =~= decimal_text((-i) as nat));
        assert(int_text(j).drop_first() =~= decimal_text((-j) as nat));
        lemma_decimal_injective((-i) as nat, (-j) as nat);
    } else {
        lemma_decimal_injective(i as nat, j as nat);
    }
}

/// What may follow a value in canonical text: nothing, a comma, or the end
/// of an array or object.
pub open spec fn stops(s: Seq<char>) -> bool {
    s.len() == 0 || s[0] == ',' || s[0] == ']' || s[0] == '}'
}

proof fn lemma_int_prefix(i: int, j: int, s: Seq<char>, t: Seq<char>)
    requires
        int_text(i) + s == int_text(j) + t,
        stops(s),
        stops(t),
    ensures
        i == j,
        s == t,
{
    lemma_int_text(i);
    lemma_int_text(j);
    let a = int_text(i);
    let b = int_text(j);
    if a.len() < b.len() {
        assert((a + s)[a.len() as int] == s[0]);
        assert((b + t)[a.len() as int] == b[a.len() as int]);
    } else if b.len() < a.len() {
        assert((b + t)[b.len() as int] == t[0]);
        assert((a + s)[b.len() as int] == a[b.len() as int]);
    } else {
        assert(a =~= (a + s).take(a.len() as int));
        assert(b =~= (b + t).take(b.len() as int));
        assert(s =~= (a + s).skip(a.len() as int));
        assert(t =~= (b + t).skip(b.len() as int));
        lemma_int_text_injective(i, j);
    }
}

/// Escaping works character by character from the front.
proof fn lemma_escaped_front(x: Seq<char>)
    requires
        x.len() > 0,
    ensures
        escaped(x) == escaped_char(x[0]) + escaped(x.drop_first()),
    decreases x.len(),
{
    if x.len() == 1 {
        assert(x.drop_last() =~= Seq::<char>::empty());
        assert(x.drop_first() =~= Seq::<char>::empty());
        assert(escaped(x.drop_last()) =~= Seq::<char>::empty());
        assert(escaped(x.drop_first()) =~= Seq::<char>::empty());
        assert(x.last() == x[0]);
        assert(escaped(x) =~= escaped_char(x[0]));
    } else {
        lemma_escaped_front(x.drop_last());
        let y = x.drop_first();
        assert(x.drop_last().drop_first() =~= y.drop_last());
        assert(y.last() == x.last());
        assert(x.drop_last()[0] == x[0]);
        assert(escaped(x) =~= escaped_char(x[0]) + escaped(y));
    }
}

proof fn lemma_hex_digit_injective(a: nat, b: nat)
    requires
        a < 16,
        b < 16,
        hex_digit_lower(a) == hex_digit_lower(b),
    ensures
        a == b,
{
}

/// An escape is never empty and never starts with a double quote.
proof fn lemma_escaped_char_lead(c: char)
    ensures
        escaped_char(c).len() >= 1,
        escaped_char(c)[0] != '"',
{
}

/// The escapes of two characters cannot be told apart as prefixes of one
/// text unless the characters are the same.
proof fn lemma_escaped_char_prefix(c: char, d: char, r: Seq<char>, q: Seq<char>)
    requires
        escaped_char(c) + r == escaped_char(d) + q,
    ensures
        c == d,
        r == q,
{
    let a = escaped_char(c);
    let b = escaped_char(d);
    let w = a + r;
    assert(w[0] == a[0] && w[0] == b[0]);
    if a.len() >= 2 && b.len() >= 2 {
        assert(w[1] == a[1] && w[1] == b[1]);
        if a.len() == 6 && b.len() == 6 {
            assert(w[4] == a[4] && w[4] == b[4]);
            assert(w[5] == a[5] && w[5] == b[5]);
            lemma_hex_digit_injective((c as nat) / 16, (d as nat) / 16);
            lemma_hex_digit_injective((c as nat) % 16, (d as nat) % 16);
            assert(c as nat == d as nat);
        }
    }
    assert(a.len() == b.len());
    assert(r =~= w.skip(a.len() as int));
    assert(q =~= w.skip(b.len() as int));
}

/// The closing quote of a JSON string literal is the first quote that is
/// not escaped, so a literal followed by anything determines its string.
proof fn lemma_escaped_prefix(x: Seq<char>, y: Seq<char>, s: Seq<char>, t: Seq<char>)
    requires
        escaped(x) + seq!['"'] + s == escaped(y) + seq!['"'] + t,
    ensures
        x == y,
        s == t,
    decreases x.len(),
{
    if x.len() == 0 {
        if y.len() > 0 {
            lemma_escaped_front(y);
            lemma_escaped_char_lead(y[0]);
            assert((escaped(x) + seq!['"'] + s)[0] == '"');
            assert((escaped(y) + seq!['"'] + t)[0] == escaped_char(y[0])[0]);
        } else {
            assert(s =~= (escaped(x) + seq!['"'] + s).skip(1));
            assert(t =~= (escaped(y) + seq!['"'] + t).skip(1));
        }
    } else if y.len() == 0 {
        lemma_escaped_front(x);
        lemma_escaped_char_lead(x[0]);
        assert((escaped(y) + seq!['"'] + t)[0] == '"');
        assert((escaped(x) + seq!['"'] + s)[0] == escaped_char(x[0])[0]);
    } else {
        lemma_escaped_front(x);
        lemma_escaped_front(y);
        let rx = escaped(x.drop_first()) + seq!['"'] + s;
        let ry = escaped(y.drop_first()) + seq!['"'] + t;
        assert(escaped(x) + seq!['"'] + s =~= escaped_char(x[0]) + rx);
        assert(escaped(y) + seq!['"'] + t =~= escaped_char(y[0]) + ry);
        lemma_escaped_char_prefix(x[0], y[0], rx, ry);
        lemma_escaped_prefix(x.drop_first(), y.drop_first(), s, t);
        assert(x =~= seq![x[0]] + x.drop_first());
        assert(y =~= seq![y[0]] + y.drop_first());
    }
}

/// A JSON string literal followed by anything determines its string and
/// what follows.
pub proof fn lemma_quoted_prefix(x: Seq<char>, y: Seq<char>, s: Seq<char>, t: Seq<char>)
    requires
        json_quoted(x) + s == json_quoted(y) + t,
    ensures
        x == y,
        s == t,
{
    let a = json_quoted(x) + s;
    let b = json_quoted(y) + t;
    assert(a.drop_first() =~= escaped(x) + seq!['"'] + s);
    assert(b.drop_first() =~= escaped(y) + seq!['"'] + t);
    lemma_escaped_prefix(x, y, s, t);
}

/// A JSON value without floating-point numbers whose objects hold each key
/// once, at every depth.
pub open spec fn plain_json(v: Json) -> bool
    decreases v,
{
    match v {
        Json::Float(_) => false,
        Json::Arr(xs) => forall|i: int| 0 <= i < xs.len() ==> plain_json(#[trigger] xs[i]),
        Json::Obj(es) => {
            &&& keys_distinct(entry_keys(es))
            &&& forall|i: int| 0 <= i < es.len() ==> plain_json(#[trigger] es[i].1)
        },
        _ => true,
    }
}

proof fn lemma_cancel(p: Seq<char>, s: Seq<char>, t: Seq<char>)
    requires
        p + s == p + t,
    ensures
        s == t,
{
    assert(s =~= (p + s).skip(p.len() as int));
    assert(t =~= (p + t).skip(p.len() as int));
}

/// The first character of a canonical text tells the kind of value.
proof fn lemma_lead(v: Json)
    requires
        plain_json(v),
    ensures
        canon(v).len() >= 1,
        v is Null ==> canon(v)[0] == 'n',
        v matches Json::Bool(b) ==> canon(v)[0] == (if b { 't' } else { 'f' }),
        v is Int ==> canon(v)[0] == '-' || is_digit(canon(v)[0]),
        v is Str ==> canon(v)[0] == '"',
        v is Arr ==> canon(v)[0] == '[',
        v is Obj ==> canon(v)[0] == '{',
{
    match v {
        Json::Int(i) => {
            lemma_int_text(i);
        },
        _ => {},
    }
}

proof fn lemma_join_front(parts: Seq<Seq<char>>)
    requires
        parts.len() > 0,
    ensures
        join(parts) == if parts.len() == 1 {
            parts[0]
        } else {
            parts[0] + seq![','] + join(parts.drop_first())
        },
    decreases parts.len(),
{
    if parts.len() == 2 {
        assert(parts.drop_last().len() == 1);
        assert(parts.drop_first().len() == 1);
        assert(join(parts.drop_first()) == parts.drop_first()[0]);
        assert(join(parts.drop_last()) == parts.drop_last()[0]);
    } else if parts.len() > 2 {
        lemma_join_front(parts.drop_last());
        assert(parts.drop_last().drop_first() =~= parts.drop_first().drop_last());
        assert(parts.drop_first().last() == parts.last());
        assert(join(parts) =~= parts[0] + seq![','] + join(parts.drop_first()));
    }
}

proof fn lemma_items_join(xs: Seq<Json>, i: int)
    requires
        0 <= i < xs.len(),
    ensures
        join(item_texts(xs, i)) == canon(xs[i]) + if i + 1 == xs.len() {
            Seq::<char>::empty()
        } else {
            seq![','] + join(item_texts(xs, i + 1))
        },
{
    lemma_item_texts(xs, i + 1);
    let p = item_texts(xs, i);
    assert(p == seq![canon(xs[i])] + item_texts(xs, i + 1));
    lemma_join_front(p);
    assert(p.drop_first() =~= item_texts(xs, i + 1));
    assert(p[0] == canon(xs[i]));
    if i + 1 == xs.len() {
        assert(join(p) =~= canon(xs[i]) + Seq::<char>::empty());
    }
}

proof fn lemma_entries_join(es: Seq<(Seq<char>, Json)>, ord: Seq<int>, i: int)
    requires
        0 <= i < ord.len(),
        forall|k: int| 0 <= k < ord.len() ==> 0 <= #[trigger] ord[k] < es.len(),
    ensures
        join(entry_texts(es, ord, i)) == json_quoted(es[ord[i]].0) + seq![':'] + canon(es[ord[i]].1) + if i + 1
            == ord.len() {
            Seq::<char>::empty()
        } else {
            seq![','] + join(entry_texts(es, ord, i + 1))
        },
{
    lemma_entry_texts(es, ord, i + 1);
    let p = entry_texts(es, ord, i);
    assert(0 <= ord[i] < es.len());
    assert(p == seq![json_quoted(es[ord[i]].0) + seq![':'] + canon(es[ord[i]].1)] + entry_texts(es, ord, i + 1));
    lemma_join_front(p);
    assert(p.drop_first() =~= entry_texts(es, ord, i + 1));
    if i + 1 == ord.len() {
        assert(join(p) =~= json_quoted(es[ord[i]].0) + seq![':'] + canon(es[ord[i]].1) + Seq::<char>::empty());
    }
}

/// Canonical text of a value followed by what may follow a value determines
/// the value (up to member order) and what follows.
#[verifier::rlimit(50)]
#[verifier::spinoff_prover]
proof fn lemma_canon_prefix(a: Json, b: Json, s: Seq<char>, t: Seq<char>)
    requires
        plain_json(a),
        plain_json(b),
        canon(a) + s == canon(b) + t,
        stops(s),
        stops(t),
    ensures
        json_equiv(a, b),
        canon(a) == canon(b),
        s == t,
    decreases a, 0int,
{
    lemma_lead(a);
    lemma_lead(b);
    let w = canon(a) + s;
    assert(w[0] == canon(a)[0]);
    assert((canon(b) + t)[0] == canon(b)[0]);
    match (a, b) {
        (Json::Null, Json::Null) => {
            lemma_cancel(canon(a), s, t);
        },
        (Json::Bool(x), Json::Bool(y)) => {
            assert(x == y);
            lemma_cancel(canon(a), s, t);
        },
        (Json::Int(i), Json::Int(j)) => {
            lemma_int_prefix(i, j, s, t);
        },
        (Json::Str(x), Json::Str(y)) => {
            lemma_quoted_prefix(x, y, s, t);
        },
        (Json::Arr(xs), Json::Arr(ys)) => {
            assert(a == Json::Arr(xs) && b == Json::Arr(ys));
            let jx = join(item_texts(xs, 0));
            let jy = join(item_texts(ys, 0));
            assert(w.drop_first() =~= jx + seq![']'] + s);
            assert((canon(b) + t).drop_first() =~= jy + seq![']'] + t);
            lemma_items_prefix(xs, ys, 0, s, t);
        },
        (Json::Obj(es), Json::Obj(fs)) => {
            assert(a == Json::Obj(es) && b == Json::Obj(fs));
            let ka = entry_keys(es);
            let kb = entry_keys(fs);
            let oa = key_order(ka, None, es.len());
            let ob = key_order(kb, None, fs.len());
            law_key_order_sorted_and_complete(ka);
            law_key_order_sorted_and_complete(kb);
            lemma_key_order_in_range(ka, None, es.len());
            lemma_key_order_in_range(kb, None, fs.len());
            let jx = join(entry_texts(es, oa, 0));
            let jy = join(entry_texts(fs, ob, 0));
            assert(w.drop_first() =~= jx + seq!['}'] + s);
            assert((canon(b) + t).drop_first() =~= jy + seq!['}'] + t);
            lemma_entries_prefix(es, oa, fs, ob, 0, s, t);
            assert forall|j: int| 0 <= j < fs.len() implies exists|i: int|
                0 <= i < es.len() && #[trigger] es[i].0 == #[trigger] fs[j].0 by {
                assert(ob.contains(j));
                let k = choose|k: int| 0 <= k < ob.len() && ob[k] == j;
                assert(es[oa[k]].0 == fs[ob[k]].0);
            }
            assert forall|i: int| 0 <= i < es.len() implies exists|j: int|
                0 <= j < fs.len() && #[trigger] fs[j].0 == #[trigger] es[i].0 && json_equiv(es[i].1, fs[j].1) by {
                assert(oa.contains(i));
                let k = choose|k: int| 0 <= k < oa.len() && oa[k] == i;
                assert(es[oa[k]].0 == fs[ob[k]].0);
            }
        },
        _ => {},
    }
}

proof fn lemma_items_prefix(xs: Seq<Json>, ys: Seq<Json>, i: int, s: Seq<char>, t: Seq<char>)
    requires
        0 <= i <= xs.len(),
        i <= ys.len(),
        forall|k: int| 0 <= k < xs.len() ==> plain_json(#[trigger] xs[k]),
        forall|k: int| 0 <= k < ys.len() ==> plain_json(#[trigger] ys[k]),
        join(item_texts(xs, i)) + seq![']'] + s == join(item_texts(ys, i)) + seq![']'] + t,
        stops(s),
        stops(t),
    ensures
        xs.len() == ys.len(),
        forall|k: int| i <= k < xs.len() ==> json_equiv(#[trigger] xs[k], ys[k]),
        join(item_texts(xs, i)) == join(item_texts(ys, i)),
        s == t,
    decreases xs, xs.len() - i,
{
    lemma_item_texts(xs, i);
    lemma_item_texts(ys, i);
    let lx = join(item_texts(xs, i)) + seq![']'] + s;
    let ly = join(item_texts(ys, i)) + seq![']'] + t;
    if i == xs.len() && i == ys.len() {
        assert(item_texts(xs, i) =~= Seq::<Seq<char>>::empty());
        assert(item_texts(ys, i) =~= Seq::<Seq<char>>::empty());
        assert(lx =~= seq![']'] + s);
        assert(ly =~= seq![']'] + t);
        lemma_cancel(seq![']'], s, t);
    } else if i == xs.len() {
        assert(item_texts(xs, i) =~= Seq::<Seq<char>>::empty());
        assert(lx[0] == ']');
        lemma_items_join(ys, i);
        lemma_lead(ys[i]);
        assert(ly[0] == canon(ys[i])[0]);
    } else if i == ys.len() {
        assert(item_texts(ys, i) =~= Seq::<Seq<char>>::empty());
        assert(ly[0] == ']');
        lemma_items_join(xs, i);
        lemma_lead(xs[i]);
        assert(lx[0] == canon(xs[i])[0]);
    } else {
        lemma_items_join(xs, i);
        lemma_items_join(ys, i);
        let sx = if i + 1 == xs.len() {
            seq![']'] + s
        } else {
            seq![','] + join(item_texts(xs, i + 1)) + seq![']'] + s
        };
        let sy = if i + 1 == ys.len() {
            seq![']'] + t
        } else {
            seq![','] + join(item_texts(ys, i + 1)) + seq![']'] + t
        };
        assert(lx =~= canon(xs[i]) + sx);
        assert(ly =~= canon(ys[i]) + sy);
        lemma_canon_prefix(xs[i], ys[i], sx, sy);
        if i + 1 == xs.len() && i + 1 == ys.len() {
            lemma_cancel(seq![']'], s, t);
        } else if i + 1 == xs.len() {
            assert(sx[0] == ']' && sy[0] == ',');
        } else if i + 1 == ys.len() {
            assert(sy[0] == ']' && sx[0] == ',');
        } else {
            assert(sx.drop_first() =~= join(item_texts(xs, i + 1)) + seq![']'] + s);
            assert(sy.drop_first() =~= join(item_texts(ys, i + 1)) + seq![']'] + t);
            lemma_items_prefix(xs, ys, i + 1, s, t);
        }
    }
}

#[verifier::rlimit(50)]
#[verifier::spinoff_prover]
proof fn lemma_entries_prefix(
    es: Seq<(Seq<char>, Json)>,
    oa: Seq<int>,
    fs: Seq<(Seq<char>, Json)>,
    ob: Seq<int>,
    i: int,
    s: Seq<char>,
    t: Seq<char>,
)
    requires
        0 <= i <= oa.len(),
        i <= ob.len(),
        forall|k: int| 0 <= k < oa.len() ==> 0 <= #[trigger] oa[k] < es.len(),
        forall|k: int| 0 <= k < ob.len() ==> 0 <= #[trigger] ob[k] < fs.len(),
        forall|k: int| 0 <= k < es.len() ==> plain_json(#[trigger] es[k].1),
        forall|k: int| 0 <= k < fs.len() ==> plain_json(#[trigger] fs[k].1),
        join(entry_texts(es, oa, i)) + seq!['}'] + s == join(entry_texts(fs, ob, i)) + seq!['}'] + t,
        stops(s),
        stops(t),
    ensures
        oa.len() == ob.len(),
        forall|k: int|
            i <= k < oa.len() ==> es[oa[k]].0 == fs[#[trigger] ob[k]].0 && json_equiv(es[oa[k]].1, fs[ob[k]].1),
        join(entry_texts(es, oa, i)) == join(entry_texts(fs, ob, i)),
        s == t,
    decreases es, oa.len() - i,
{
    lemma_entry_texts(es, oa, i);
    lemma_entry_texts(fs, ob, i);
    let lx = join(entry_texts(es, oa, i)) + seq!['}'] + s;
    let ly = join(entry_texts(fs, ob, i)) + seq!['}'] + t;
    if i == oa.len() && i == ob.len() {
        assert(entry_texts(es, oa, i) =~= Seq::<Seq<char>>::empty());
        assert(entry_texts(fs, ob, i) =~= Seq::<Seq<char>>::empty());
        assert(lx =~= seq!['}'] + s);
        assert(ly =~= seq!['}'] + t);
        lemma_cancel(seq!['}'], s, t);
    } else if i == oa.len() {
        assert(entry_texts(es, oa, i) =~= Seq::<Seq<char>>::empty());
        assert(lx[0] == '}');
        lemma_entries_join(fs, ob, i);
        assert(ly[0] == '"');
    } else if i == ob.len() {
        assert(entry_texts(fs, ob, i) =~= Seq::<Seq<char>>::empty());
        assert(ly[0] == '}');
        lemma_entries_join(es, oa, i);
        assert(lx[0] == '"');
    } else {
        lemma_entries_join(es, oa, i);
        lemma_entries_join(fs, ob, i);
        let ex = es[oa[i]];
        let ey = fs[ob[i]];
        let sx = if i + 1 == oa.len() {
            seq!['}'] + s
        } else {
            seq![','] + join(entry_texts(es, oa, i + 1)) + seq!['}'] + s
        };
        let sy = if i + 1 == ob.len() {
            seq!['}'] + t
        } else {
            seq![','] + join(entry_texts(fs, ob, i + 1)) + seq!['}'] + t
        };
        assert(lx =~= json_quoted(ex.0) + (seq![':'] + canon(ex.1) + sx));
        assert(ly =~= json_quoted(ey.0) + (seq![':'] + canon(ey.1) + sy));
        lemma_quoted_prefix(ex.0, ey.0, seq![':'] + canon(ex.1) + sx, seq![':'] + canon(ey.1) + sy);
        assert((seq![':'] + canon(ex.1) + sx).drop_first() =~= canon(ex.1) + sx);
        assert((seq![':'] + canon(ey.1) + sy).drop_first() =~= canon(ey.1) + sy);
        lemma_canon_prefix(ex.1, ey.1, sx, sy);
        if i + 1 == oa.len() && i + 1 == ob.len() {
            lemma_cancel(seq!['}'], s, t);
        } else if i + 1 == oa.len() {
            assert(sx[0] == '}' && sy[0] == ',');
        } else if i + 1 == ob.len() {
            assert(sy[0] == '}' && sx[0] == ',');
        } else {
            assert(sx.drop_first() =~= join(entry_texts(es, oa, i + 1)) + seq!['}'] + s);
            assert(sy.drop_first() =~= join(entry_texts(fs, ob, i + 1)) + seq!['}'] + t);
            lemma_entries_prefix(es, oa, fs, ob, i + 1, s, t);
        }
    }
}

/// Two key sequences in strictly increasing order that hold the same keys
/// are the same sequence.
proof fn lemma_sorted_same_keys(ka: Seq<Seq<char>>, kb: Seq<Seq<char>>)
    requires
        forall|i: int, j: int| 0 <= i < j < ka.len() ==> key_lt(#[trigger] ka[i], #[trigger] ka[j]),
        forall|i: int, j: int| 0 <= i < j < kb.len() ==> key_lt(#[trigger] kb[i], #[trigger] kb[j]),
        ka.to_set() == kb.to_set(),
    ensures
        ka == kb,
{
    lemma_sorted_keys_distinct(ka);
    lemma_sorted_keys_distinct(kb);
    assert(ka.no_duplicates());
    assert(kb.no_duplicates());
    ka.unique_seq_to_set();
    kb.unique_seq_to_set();
    let n = ka.len();
    assert(kb.len() == n);
    lemma_sorted_key_order(ka, 0);
    lemma_sorted_key_order(kb, 0);
    lemma_key_orders_agree(ka, kb, None, n);
    let oa = key_order(ka, None, n);
    let ob = key_order(kb, None, n);
    assert forall|k: int| 0 <= k < n implies ka[k] == kb[k] by {
        assert(oa[k] == k);
        assert(ob[k] == k);
    }
    assert(ka =~= kb);
}

/// Values equal up to member order whose objects all keep their keys in
/// increasing order are equal.
pub proof fn lemma_equiv_sorted_equal(a: Json, b: Json)
    requires
        json_equiv(a, b),
        sorted_json(a),
        sorted_json(b),
    ensures
        a == b,
    decreases a,
{
    match (a, b) {
        (Json::Arr(xs), Json::Arr(ys)) => {
            assert forall|i: int| 0 <= i < xs.len() implies xs[i] == ys[i] by {
                lemma_equiv_sorted_equal(xs[i], ys[i]);
            }
            assert(xs =~= ys);
        },
        (Json::Obj(es), Json::Obj(fs)) => {
            let ka = entry_keys(es);
            let kb = entry_keys(fs);
            assert(ka.to_set() =~= kb.to_set()) by {
                assert forall|x: Seq<char>| ka.to_set().contains(x) implies kb.to_set().contains(x) by {
                    let i = choose|i: int| 0 <= i < ka.len() && ka[i] == x;
                    assert(es[i].0 == ka[i]);
                    let j = choose|j: int| 0 <= j < fs.len() && fs[j].0 == es[i].0 && json_equiv(es[i].1, fs[j].1);
                    assert(kb[j] == x);
                }
                assert forall|x: Seq<char>| kb.to_set().contains(x) implies ka.to_set().contains(x) by {
                    let j = choose|j: int| 0 <= j < kb.len() && kb[j] == x;
                    assert(fs[j].0 == kb[j]);
                    let i = choose|i: int| 0 <= i < es.len() && es[i].0 == fs[j].0;
                    assert(ka[i] == x);
                }
            }
            assert forall|i: int, j: int| 0 <= i < j < ka.len() implies key_lt(#[trigger] ka[i], #[trigger] ka[j]) by {
                assert(ka[i] == es[i].0 && ka[j] == es[j].0);
            }
            assert forall|i: int, j: int| 0 <= i < j < kb.len() implies key_lt(#[trigger] kb[i], #[trigger] kb[j]) by {
                assert(kb[i] == fs[i].0 && kb[j] == fs[j].0);
            }
            lemma_sorted_same_keys(ka, kb);
            lemma_sorted_keys_distinct(kb);
            assert forall|i: int| 0 <= i < es.len() implies es[i] == fs[i] by {
                assert(ka[i] == es[i].0);
                let j = choose|j: int| 0 <= j < fs.len() && fs[j].0 == es[i].0 && json_equiv(es[i].1, fs[j].1);
                assert(kb[j] == kb[i]);
                lemma_equiv_sorted_equal(es[i].1, fs[i].1);
            }
            assert(es =~= fs);
        },
        _ => {},
    }
}

/// The canonical text determines the value: two values without
/// floating-point numbers, each key once per object, that have the same
/// canonical text are the same value up to the order of object members,
/// and the same value outright when their objects keep their keys in
/// increasing order (as every `JsonMap` does).
pub proof fn law_canonical_text_determines_value(a: Json, b: Json)
    requires
        plain_json(a),
        plain_json(b),
        canon(a) == canon(b),
    ensures
        json_equiv(a, b),
        sorted_json(a) && sorted_json(b) ==> a == b,
{
    assert(canon(a) + Seq::<char>::empty() =~= canon(b) + Seq::<char>::empty());
    lemma_canon_prefix(a, b, Seq::<char>::empty(), Seq::<char>::empty());
    if sorted_json(a) && sorted_json(b) {
        lemma_equiv_sorted_equal(a, b);
    }
}

/// How numbers are written: a number that is not an integer is written as
/// its JSON text exactly, sign and all, so two such numbers are written
/// alike only when their texts are the same; an integer is written with a
/// minus sign exactly when it is negative, followed by the decimal digits of
/// its magnitude, so two integers are written alike only when they are equal.
pub proof fn law_number_text(t: Seq<char>, u: Seq<char>, i: int, j: int)
    ensures
        canon(Json::Float(t)) == t,
        canon(Json::Float(t)) == canon(Json::Float(u)) ==> t == u,
        canon(Json::Int(i)).len() >= 1,
        (canon(Json::Int(i))[0] == '-') <==> i < 0,
        forall|k: int| (if i < 0 { 1int } else { 0int }) <= k < canon(Json::Int(i)).len() ==> is_digit(#[trigger] canon(Json::Int(i))[k]),
        i < 0 ==> canon(Json::Int(i)).drop_first() == canon(Json::Int(-i)),
        canon(Json::Int(i)) == canon(Json::Int(j)) ==> i == j,
{
    lemma_int_text(i);
    lemma_int_text(-i);
    if canon(Json::Int(i)) == canon(Json::Int(j)) {
        lemma_int_text_injective(i, j);
    }
    if i < 0 {
        assert(canon(Json::Int(i)).drop_first() =~= decimal_text((-i) as nat));
    }
}

} // verus!
