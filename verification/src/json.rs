//! JSON values.

use crate::text::{all_digits, dec, dec_reads, decimal, number, same};
use vstd::prelude::*;

verus! {

/// A finite number in scientific notation: a sign, digits with the point after the first, and a
/// power of ten.
#[derive(Debug, Clone, PartialEq)]
pub struct Sci {
    /// Whether it has a minus sign.
    pub neg: bool,
    /// The digits.
    pub digits: Vec<char>,
    /// The power of ten.
    pub exp: i32,
}

/// A JSON number.
#[derive(Debug, Clone, PartialEq)]
pub enum Number {
    /// An integer from `i64::MIN` to `i64::MAX`.
    Int(i64),
    /// An integer above `i64::MAX`.
    Big(u64),
    /// Any other finite number: the bits of its IEEE double, its shortest digits that round trip,
    /// and how compact JSON writes it.
    Real(u64, Sci, String),
}

/// A JSON value. An object keeps the order of its keys.
#[derive(Debug, PartialEq)]
pub enum Json {
    /// `null`.
    Null,
    /// `true` or `false`.
    Bool(bool),
    /// A number.
    Num(Number),
    /// A string.
    Str(String),
    /// An array.
    Array(Vec<Json>),
    /// An object.
    Object(Vec<(String, Json)>),
}

/// A JSON number, as plain values.
pub ghost enum Num {
    /// An integer.
    Int(int),
    /// Any other number: its bits, sign, digits, power of ten, and how compact JSON writes it.
    Real(u64, bool, Seq<char>, int, Seq<char>),
}

/// A JSON value, as plain values.
pub ghost enum Value {
    /// `null`.
    Null,
    /// `true` or `false`.
    Bool(bool),
    /// A number.
    Num(Num),
    /// A string.
    Str(Seq<char>),
    /// An array.
    Array(Seq<Value>),
    /// An object.
    Object(Seq<(Seq<char>, Value)>),
}

impl View for Number {
    type V = Num;

    open spec fn view(&self) -> Num {
        match *self {
            Number::Int(i) => Num::Int(i as int),
            Number::Big(u) => Num::Int(u as int),
            Number::Real(b, s, t) => Num::Real(b, s.neg, s.digits@, s.exp as int, t@),
        }
    }
}

impl Json {
    /// The value, as plain values.
    pub open spec fn val(self) -> Value
        decreases self,
    {
        match self {
            Json::Null => Value::Null,
            Json::Bool(b) => Value::Bool(b),
            Json::Num(n) => Value::Num(n@),
            Json::Str(s) => Value::Str(s@),
            Json::Array(v) => Value::Array(
                Seq::new(
                    v@.len(),
                    |i: int|
                        if 0 <= i < v@.len() {
                            v@[i].val()
                        } else {
                            Value::Null
                        },
                ),
            ),
            Json::Object(m) => Value::Object(
                Seq::new(
                    m@.len(),
                    |i: int|
                        if 0 <= i < m@.len() {
                            (m@[i].0@, m@[i].1.val())
                        } else {
                            (seq![], Value::Null)
                        },
                ),
            ),
        }
    }
}

impl View for Json {
    type V = Value;

    open spec fn view(&self) -> Value {
        self.val()
    }
}

/// The values of a list.
pub open spec fn values(v: Seq<Json>) -> Seq<Value> {
    Seq::new(v.len(), |i: int| v[i]@)
}

/// The entries of an object.
pub open spec fn entries(m: Seq<(String, Json)>) -> Seq<(Seq<char>, Value)> {
    Seq::new(m.len(), |i: int| (m[i].0@, m[i].1@))
}

/// The view of an array.
pub proof fn array_view(v: Vec<Json>)
    ensures
        Json::Array(v)@ == Value::Array(values(v@)),
{
    assert(Json::Array(v)@->Array_0 =~= values(v@));
}

/// The view of an object.
pub proof fn object_view(m: Vec<(String, Json)>)
    ensures
        Json::Object(m)@ == Value::Object(entries(m@)),
{
    assert(Json::Object(m)@->Object_0 =~= entries(m@));
}

/// The value of the first entry of a key.
pub open spec fn find(m: Seq<(Seq<char>, Value)>, key: Seq<char>) -> Option<Value>
    decreases m.len(),
{
    if m.len() == 0 {
        None
    } else if m[0].0 == key {
        Some(m[0].1)
    } else {
        find(m.drop_first(), key)
    }
}

/// The index of the first entry of a key, or the length.
pub open spec fn key_at(m: Seq<(Seq<char>, Value)>, key: Seq<char>) -> int
    decreases m.len(),
{
    if m.len() == 0 {
        0
    } else if m[0].0 == key {
        0
    } else {
        1 + key_at(m.drop_first(), key)
    }
}

/// An entry at `i` with none of its key before it is the one that is found.
pub proof fn find_at(m: Seq<(Seq<char>, Value)>, key: Seq<char>, i: int)
    requires
        0 <= i <= m.len(),
        forall|j: int| 0 <= j < i ==> m[j].0 != key,
        i < m.len() ==> m[i].0 == key,
    ensures
        find(m, key) == if i < m.len() {
            Some(m[i].1)
        } else {
            None
        },
        key_at(m, key) == i,
    decreases m.len(),
{
    if i > 0 {
        assert(m[0].0 != key);
        find_at(m.drop_first(), key, i - 1);
    }
}

/// An entry is found among the first entries, or else among the rest.
pub proof fn find_both(a: Seq<(Seq<char>, Value)>, b: Seq<(Seq<char>, Value)>, key: Seq<char>)
    ensures
        find(a + b, key) == match find(a, key) {
            Some(v) => Some(v),
            None => find(b, key),
        },
    decreases a.len(),
{
    if a.len() == 0 {
        assert(a + b =~= b);
    } else {
        assert((a + b).drop_first() =~= a.drop_first() + b);
        find_both(a.drop_first(), b, key);
    }
}

/// A key stands within the object, or nowhere.
pub proof fn key_bound(m: Seq<(Seq<char>, Value)>, key: Seq<char>)
    ensures
        0 <= key_at(m, key) <= m.len(),
    decreases m.len(),
{
    if m.len() > 0 {
        key_bound(m.drop_first(), key);
    }
}

/// Where a key stands, it is that key, and what is found is its value.
pub proof fn key_there(m: Seq<(Seq<char>, Value)>, key: Seq<char>)
    ensures
        0 <= key_at(m, key) <= m.len(),
        key_at(m, key) < m.len() ==> m[key_at(m, key)].0 == key && find(m, key) == Some(
            m[key_at(m, key)].1,
        ),
        key_at(m, key) == m.len() ==> find(m, key) is None,
        forall|i: int| 0 <= i < key_at(m, key) ==> (#[trigger] m[i]).0 != key,
    decreases m.len(),
{
    if m.len() > 0 && m[0].0 != key {
        key_there(m.drop_first(), key);
        assert forall|i: int| 0 <= i < key_at(m, key) implies (#[trigger] m[i]).0 != key by {
            if i > 0 {
                assert(m.drop_first()[i - 1] == m[i]);
            }
        }
    }
}

/// An object with an entry set: its value replaced where the key stands, or put at the end.
pub open spec fn put(m: Seq<(Seq<char>, Value)>, key: Seq<char>, v: Value) -> Seq<
    (Seq<char>, Value),
> {
    let i = key_at(m, key);
    if i < m.len() {
        m.update(i, (key, v))
    } else {
        m.push((key, v))
    }
}

/// What is set is found, and every other key keeps its value.
pub proof fn put_get(m: Seq<(Seq<char>, Value)>, key: Seq<char>, v: Value, other: Seq<char>)
    ensures
        find(put(m, key, v), other) == if other == key {
            Some(v)
        } else {
            find(m, other)
        },
    decreases m.len(),
{
    if m.len() == 0 {
        let p = put(m, key, v);
        assert(p =~= seq![(key, v)]);
        if other != key {
            assert(p.drop_first() =~= m);
        }
    } else if m[0].0 == key {
        let p = put(m, key, v);
        assert(p.drop_first() =~= m.drop_first());
    } else {
        let rest = m.drop_first();
        put_get(rest, key, v, other);
        let p = put(m, key, v);
        key_bound(rest, key);
        assert(p[0] == m[0]);
        assert(p.drop_first() =~= put(rest, key, v));
    }
}

/// The index of the first entry of a key, or the length.
pub fn find_key(m: &Vec<(String, Json)>, key: &str) -> (i: usize)
    ensures
        i <= m@.len(),
        i == key_at(entries(m@), key@),
        i < m@.len() ==> find(entries(m@), key@) == Some(m@[i as int].1@) && m@[i as int].0@
            == key@,
        i == m@.len() ==> find(entries(m@), key@) is None,
{
    let mut i: usize = 0;
    while i < m.len() && !same(m[i].0.as_str(), key)
        invariant
            i <= m@.len(),
            forall|j: int| 0 <= j < i ==> entries(m@)[j].0 != key@,
        decreases m@.len() - i,
    {
        i += 1;
    }
    proof {
        find_at(entries(m@), key@, i as int);
    }
    i
}

/// The value of a key.
pub fn get<'a>(m: &'a Vec<(String, Json)>, key: &str) -> (r: Option<&'a Json>)
    ensures
        match r {
            Some(v) => find(entries(m@), key@) == Some(v@),
            None => find(entries(m@), key@) is None,
        },
{
    let i: usize = find_key(m, key);
    if i < m.len() {
        Some(&m[i].1)
    } else {
        None
    }
}

/// Sets the value of a key: in place when the object has it, and at the end otherwise.
pub fn insert(m: &mut Vec<(String, Json)>, key: &str, v: Json)
    ensures
        entries(final(m)@) == put(entries(old(m)@), key@, v@),
{
    let ghost before = entries(m@);
    let i: usize = find_key(m, key);
    if i < m.len() {
        m.set(i, (key.to_owned(), v));
        assert(entries(m@) =~= before.update(i as int, (key@, v@)));
    } else {
        m.push((key.to_owned(), v));
        assert(entries(m@) =~= before.push((key@, v@)));
    }
}

impl Number {
    /// The same number.
    pub fn copy(&self) -> (r: Number)
        ensures
            r@ == self@,
    {
        match self {
            Number::Int(i) => Number::Int(*i),
            Number::Big(u) => Number::Big(*u),
            Number::Real(b, s, t) => {
                let digits = crate::text::piece(&s.digits, 0, s.digits.len());
                assert(digits@ =~= s.digits@);
                Number::Real(*b, Sci { neg: s.neg, digits, exp: s.exp }, t.as_str().to_owned())
            },
        }
    }
}

impl Json {
    /// The same value.
    pub fn copy(&self) -> (r: Json)
        ensures
            r@ == self@,
        decreases self,
    {
        match self {
            Json::Null => Json::Null,
            Json::Bool(b) => Json::Bool(*b),
            Json::Num(n) => Json::Num(n.copy()),
            Json::Str(s) => Json::Str(s.as_str().to_owned()),
            Json::Array(v) => Json::Array(copy_array(v)),
            Json::Object(m) => Json::Object(copy_object(m)),
        }
    }

    /// Whether the value is `null`.
    pub fn is_null(&self) -> (r: bool)
        ensures
            r == (self@ == Value::Null),
    {
        matches!(self, Json::Null)
    }
}

/// The same values.
pub fn copy_array(v: &Vec<Json>) -> (r: Vec<Json>)
    ensures
        values(r@) == values(v@),
        Json::Array(r)@ == Json::Array(*v)@,
    decreases v,
{
    let mut out: Vec<Json> = Vec::new();
    let mut i: usize = 0;
    while i < v.len()
        invariant
            i <= v@.len(),
            values(out@) == values(v@).take(i as int),
        decreases v@.len() - i,
    {
        assert(decreases_to!(v => v@[i as int]));
        let ghost before = out@;
        let c = v[i].copy();
        out.push(c);
        i += 1;
        assert(values(out@) =~= values(before).push(c@));
        assert(values(out@) =~= values(v@).take(i as int));
    }
    proof {
        array_view(*v);
        array_view(out);
        assert(values(v@).take(i as int) =~= values(v@));
    }
    out
}

/// The same entries.
pub fn copy_object(m: &Vec<(String, Json)>) -> (r: Vec<(String, Json)>)
    ensures
        entries(r@) == entries(m@),
        Json::Object(r)@ == Json::Object(*m)@,
    decreases m,
{
    let mut out: Vec<(String, Json)> = Vec::new();
    let mut i: usize = 0;
    while i < m.len()
        invariant
            i <= m@.len(),
            entries(out@) == entries(m@).take(i as int),
        decreases m@.len() - i,
    {
        assert(decreases_to!(m => m@[i as int]));
        let e = &m[i];
        assert(decreases_to!(m@[i as int] => e.1));
        let c = e.1.copy();
        let ghost before = out@;
        let ghost key = e.0@;
        out.push((e.0.as_str().to_owned(), c));
        i += 1;
        assert(entries(out@) =~= entries(before).push((key, c@)));
        assert(entries(out@) =~= entries(m@).take(i as int));
    }
    proof {
        object_view(*m);
        object_view(out);
        assert(entries(m@).take(i as int) =~= entries(m@));
    }
    out
}

/// `i` in decimal, with a minus sign when it is negative.
pub open spec fn int_text(i: int) -> Seq<char> {
    if i < 0 {
        seq!['-'] + dec((-i) as nat)
    } else {
        dec(i as nat)
    }
}

/// `i` in decimal, with a minus sign when it is negative.
pub fn int_to_text(i: i64) -> (r: String)
    ensures
        r@ == int_text(i as int),
{
    if i < 0 {
        let mut r = String::new();
        r.push('-');
        let n: u64 = if i == i64::MIN {
            9223372036854775808
        } else {
            (-i) as u64
        };
        r.append(decimal(n).as_str());
        assert(r@ =~= int_text(i as int));
        r
    } else {
        decimal(i as u64)
    }
}

impl Clone for Json {
    fn clone(&self) -> (r: Self)
        ensures
            r@ == self@,
    {
        self.copy()
    }
}

/// A whole number is written as digits that write its size, behind a minus sign when it is
/// negative.
pub proof fn a_whole_number_reads_back(i: int)
    ensures
        i < 0 ==> int_text(i)[0] == '-' && all_digits(int_text(i).skip(1)) && number(
            int_text(i).skip(1),
        ) == -i,
        i >= 0 ==> all_digits(int_text(i)) && number(int_text(i)) == i,
{
    if i < 0 {
        dec_reads((-i) as nat);
        assert(int_text(i).skip(1) =~= dec((-i) as nat));
    } else {
        dec_reads(i as nat);
    }
}

} // verus!
