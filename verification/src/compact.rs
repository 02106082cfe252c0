//! JSON text without spaces.

use crate::json::{
    array_view, entries, int_text, int_to_text, object_view, values, Json, Num, Number, Value,
};
use crate::pyjson::string_text;
use crate::text::decimal;
use vstd::prelude::*;

verus! {

/// A value as JSON text without spaces.
pub open spec fn compact(v: Value) -> Seq<char>
    decreases v, 0int,
{
    match v {
        Value::Null => "null"@,
        Value::Bool(true) => "true"@,
        Value::Bool(false) => "false"@,
        Value::Num(Num::Int(i)) => int_text(i),
        Value::Num(Num::Real(_, _, _, _, text)) => text,
        Value::Str(s) => string_text(s, false),
        Value::Array(items) => seq!['['] + compact_items(items, items.len() as int) + seq![']'],
        Value::Object(m) => seq!['{'] + compact_entries(m, m.len() as int) + seq!['}'],
    }
}

/// The first `n` values with commas between them.
pub open spec fn compact_items(items: Seq<Value>, n: int) -> Seq<char>
    decreases items, n,
{
    if n <= 0 || n > items.len() {
        seq![]
    } else {
        compact_items(items, n - 1) + (if n > 1 {
            seq![',']
        } else {
            seq![]
        }) + compact(items[n - 1])
    }
}

/// The first `n` entries with commas between them.
pub open spec fn compact_entries(m: Seq<(Seq<char>, Value)>, n: int) -> Seq<char>
    decreases m, n,
{
    if n <= 0 || n > m.len() {
        seq![]
    } else {
        compact_entries(m, n - 1) + (if n > 1 {
            seq![',']
        } else {
            seq![]
        }) + string_text(m[n - 1].0, false) + seq![':'] + compact(m[n - 1].1)
    }
}

/// The first values of a list go by those values alone.
proof fn items_alike(a: Seq<Value>, b: Seq<Value>, n: int)
    requires
        0 <= n <= a.len() && n <= b.len(),
        forall|i: int| 0 <= i < n ==> a[i] == #[trigger] b[i],
    ensures
        compact_items(a, n) == compact_items(b, n),
    decreases n,
{
    if n > 0 {
        items_alike(a, b, n - 1);
        assert(a[n - 1] == b[n - 1]);
    }
}

/// The first entries of an object go by those entries alone.
proof fn entries_alike(a: Seq<(Seq<char>, Value)>, b: Seq<(Seq<char>, Value)>, n: int)
    requires
        0 <= n <= a.len() && n <= b.len(),
        forall|i: int| 0 <= i < n ==> a[i] == #[trigger] b[i],
    ensures
        compact_entries(a, n) == compact_entries(b, n),
    decreases n,
{
    if n > 0 {
        entries_alike(a, b, n - 1);
        assert(a[n - 1] == b[n - 1]);
    }
}

/// A list is written value by value: in brackets, with a comma before every value but the first.
pub proof fn a_list_is_written_value_by_value(items: Seq<Value>, v: Value)
    requires
        items.len() > 0,
    ensures
        compact(Value::Array(seq![])) == "[]"@,
        compact(Value::Array(seq![v])) == "["@ + compact(v) + "]"@,
        compact(Value::Array(items.push(v))) == compact(Value::Array(items)).drop_last() + ","@
            + compact(v) + "]"@,
{
    reveal_strlit("[");
    reveal_strlit("]");
    reveal_strlit("[]");
    reveal_strlit(",");
    reveal_with_fuel(compact_items, 2);
    let none = Seq::<Value>::empty();
    assert(compact_items(none, 0) =~= seq![]);
    assert(compact(Value::Array(none)) =~= "[]"@);
    let one = seq![v];
    assert(compact_items(one, 0) =~= seq![]);
    assert(compact_items(one, 1) =~= compact(v));
    assert(compact(Value::Array(one)) =~= "["@ + compact(v) + "]"@);
    let more = items.push(v);
    let n = items.len() as int;
    items_alike(items, more, n);
    assert(more[n] == v);
    assert(compact_items(more, n + 1) == compact_items(items, n) + seq![','] + compact(v));
    assert(compact(Value::Array(more)) =~= compact(Value::Array(items)).drop_last() + ","@
        + compact(v) + "]"@);
}

/// An object is written entry by entry: in braces, with a comma before every entry but the first,
/// and with a colon between a key and its value.
pub proof fn an_object_is_written_entry_by_entry(
    m: Seq<(Seq<char>, Value)>,
    key: Seq<char>,
    v: Value,
)
    requires
        m.len() > 0,
    ensures
        compact(Value::Object(seq![])) == "{}"@,
        compact(Value::Object(seq![(key, v)])) == "{"@ + string_text(key, false) + ":"@ + compact(v)
            + "}"@,
        compact(Value::Object(m.push((key, v)))) == compact(Value::Object(m)).drop_last() + ","@
            + string_text(key, false) + ":"@ + compact(v) + "}"@,
{
    reveal_strlit("{");
    reveal_strlit("}");
    reveal_strlit("{}");
    reveal_strlit(",");
    reveal_strlit(":");
    reveal_with_fuel(compact_entries, 2);
    let none = Seq::<(Seq<char>, Value)>::empty();
    assert(compact_entries(none, 0) =~= seq![]);
    assert(compact(Value::Object(none)) =~= "{}"@);
    let one = seq![(key, v)];
    assert(compact_entries(one, 0) =~= seq![]);
    assert(compact_entries(one, 1) =~= string_text(key, false) + ":"@ + compact(v));
    assert(compact(Value::Object(one)) =~= "{"@ + string_text(key, false) + ":"@ + compact(v)
        + "}"@);
    let more = m.push((key, v));
    let n = m.len() as int;
    entries_alike(m, more, n);
    assert(more[n] == (key, v));
    assert(compact_entries(more, n + 1) == compact_entries(m, n) + seq![','] + string_text(
        key,
        false,
    ) + seq![':'] + compact(v));
    assert(compact(Value::Object(more)) =~= compact(Value::Object(m)).drop_last() + ","@
        + string_text(key, false) + ":"@ + compact(v) + "}"@);
}

/// `serde_json::to_string` of a string: in double quotes, with `"`, `\\` and the control
/// characters below a space escaped, the usual ones as a letter and the others as `\\u` and four
/// lower case hexadecimal digits, and every other character as it is. It does not fail on a
/// string.
#[verifier::external_body]
fn json_string(s: &str) -> (r: String)
    ensures
        r@ == string_text(s@, false),
{
    serde_json::to_string(s).unwrap_or_default()
}

/// Appends a value as JSON text without spaces.
pub fn write_compact(v: &Json, out: &mut String)
    ensures
        final(out)@ == old(out)@ + compact(v@),
    decreases v,
{
    let ghost before = out@;
    match v {
        Json::Null => out.append("null"),
        Json::Bool(b) => {
            if *b {
                out.append("true");
            } else {
                out.append("false");
            }
        },
        Json::Num(n) => match n {
            Number::Int(i) => out.append(int_to_text(*i).as_str()),
            Number::Big(u) => out.append(decimal(*u).as_str()),
            Number::Real(_, _, t) => out.append(t.as_str()),
        },
        Json::Str(s) => out.append(json_string(s.as_str()).as_str()),
        Json::Array(items) => {
            proof {
                array_view(*items);
            }
            out.push('[');
            write_items(items, out);
            out.push(']');
            assert(out@ =~= before + compact(v@));
        },
        Json::Object(m) => {
            proof {
                object_view(*m);
            }
            write_object(m, out);
            assert(out@ =~= before + compact(v@));
        },
    }
}

/// Appends values with commas between them.
fn write_items(v: &Vec<Json>, out: &mut String)
    ensures
        final(out)@ == old(out)@ + compact_items(values(v@), v@.len() as int),
    decreases v,
{
    let ghost before = out@;
    let mut i: usize = 0;
    assert(out@ =~= before + compact_items(values(v@), 0));
    while i < v.len()
        invariant
            i <= v@.len(),
            out@ == before + compact_items(values(v@), i as int),
        decreases v@.len() - i,
    {
        if i > 0 {
            out.push(',');
        }
        assert(decreases_to!(v => v@[i as int]));
        write_compact(&v[i], out);
        i += 1;
        assert(out@ =~= before + compact_items(values(v@), i as int));
    }
}

/// Appends an object as JSON text without spaces.
pub fn write_object(m: &Vec<(String, Json)>, out: &mut String)
    ensures
        final(out)@ == old(out)@ + compact(Value::Object(entries(m@))),
    decreases m,
{
    let ghost start = out@;
    out.push('{');
    let ghost before = out@;
    let mut i: usize = 0;
    assert(out@ =~= before + compact_entries(entries(m@), 0));
    while i < m.len()
        invariant
            i <= m@.len(),
            out@ == before + compact_entries(entries(m@), i as int),
        decreases m@.len() - i,
    {
        if i > 0 {
            out.push(',');
        }
        assert(decreases_to!(m => m@[i as int]));
        let e = &m[i];
        assert(decreases_to!(m@[i as int] => e.1));
        out.append(json_string(e.0.as_str()).as_str());
        out.push(':');
        write_compact(&e.1, out);
        i += 1;
        assert(out@ =~= before + compact_entries(entries(m@), i as int));
    }
    out.push('}');
    assert(out@ =~= start + compact(Value::Object(entries(m@))));
}

/// A value as JSON text without spaces.
pub fn to_compact(v: &Json) -> (r: String)
    ensures
        r@ == compact(v@),
{
    let mut out = String::new();
    write_compact(v, &mut out);
    assert(out@ =~= compact(v@));
    out
}

} // verus!
