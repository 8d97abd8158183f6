use vstd::prelude::*;

use crate::de::insert_entry;
use crate::text::push_char;
use crate::value::{Dict, List, Value, keys_unique, map_of};

verus! {

broadcast use {vstd::std_specs::vec::group_vec_axioms, vstd::seq::group_seq_axioms};

/// The absence of a value, and the unit value.
pub fn from_unit() -> (r: Value)
    ensures
        r == Value::Null,
{
    Value::Null
}

pub fn from_bool(b: bool) -> (r: Value)
    ensures
        r == Value::Bool(b),
{
    Value::Bool(b)
}

/// An 8-bit integer, widened to an `Int`.
pub fn from_i8(v: i8) -> (r: Value)
    ensures
        r == Value::Int(v as i32),
{
    Value::Int(v as i32)
}

/// A 16-bit integer, widened to an `Int`.
pub fn from_i16(v: i16) -> (r: Value)
    ensures
        r == Value::Int(v as i32),
{
    Value::Int(v as i32)
}

pub fn from_i32(v: i32) -> (r: Value)
    ensures
        r == Value::Int(v),
{
    Value::Int(v)
}

pub fn from_i64(v: i64) -> (r: Value)
    ensures
        r == Value::Long(v),
{
    Value::Long(v)
}

/// An unsigned 8-bit integer, widened to an `Int`.
pub fn from_u8(v: u8) -> (r: Value)
    ensures
        r == Value::Int(v as i32),
{
    Value::Int(v as i32)
}

/// An unsigned 16-bit integer, widened to an `Int`.
pub fn from_u16(v: u16) -> (r: Value)
    ensures
        r == Value::Int(v as i32),
{
    Value::Int(v as i32)
}

/// An unsigned 32-bit integer: an `Int` where it fits, else a `Long`.
pub fn from_u32(v: u32) -> (r: Value)
    ensures
        v <= i32::MAX ==> r == Value::Int(v as i32),
        v > i32::MAX ==> r == Value::Long(v as i64),
{
    if v <= i32::MAX as u32 {
        Value::Int(v as i32)
    } else {
        Value::Long(v as i64)
    }
}

/// An unsigned 64-bit integer as a `Long` of the same 64 bits: values
/// above `i64::MAX` wrap to negative ones.
pub fn from_u64(v: u64) -> (r: Value)
    ensures
        v <= i64::MAX ==> r == Value::Long(v as i64),
        v > i64::MAX ==> r == Value::Long((v - 0x1_0000_0000_0000_0000) as i64),
{
    if v <= i64::MAX as u64 {
        Value::Long(v as i64)
    } else {
        Value::Long((v as i128 - 0x1_0000_0000_0000_0000) as i64)
    }
}

/// A character, as text of one code point.
pub fn from_char(c: char) -> (r: Value)
    ensures
        r matches Value::String(s) && s@ == seq![c],
{
    let mut s = String::new();
    push_char(&mut s, c);
    assert(s@ =~= seq![c]);
    Value::String(s)
}

pub fn from_str(s: &str) -> (r: Value)
    ensures
        r matches Value::String(t) && t@ == s@,
{
    Value::String(s.to_owned())
}

pub fn from_byte_slice(b: &[u8]) -> (r: Value)
    ensures
        r matches Value::Bytes(v) && v@ == b@,
{
    let mut v: Vec<u8> = Vec::new();
    let mut i: usize = 0;
    while i < b.len()
        invariant
            i <= b@.len(),
            v@ == b@.subrange(0, i as int),
        decreases b.len() - i,
    {
        v.push(b[i]);
        i = i + 1;
        assert(v@ =~= b@.subrange(0, i as int));
    }
    assert(b@.subrange(0, i as int) =~= b@);
    Value::Bytes(v)
}

/// A sequence: a typed list where it carries a name, else an untyped one.
pub fn from_seq(name: Option<String>, items: Vec<Value>) -> (r: Value)
    ensures
        name matches Some(n) ==> (r matches Value::List(List::Typed(m, v)) && m@ == n@ && v@
            == items@),
        name is None ==> (r matches Value::List(List::Untyped(v)) && v@ == items@),
{
    match name {
        Some(n) => Value::List(List::Typed(n, items)),
        None => Value::List(List::Untyped(items)),
    }
}

fn entries_of(keys: Vec<Value>, values: Vec<Value>) -> (r: Vec<(Value, Value)>)
    ensures
        r@ == map_of(keys@, values@),
        keys_unique(r@),
{
    let n = if keys.len() < values.len() {
        keys.len()
    } else {
        values.len()
    };
    let ghost k0 = keys@;
    let ghost v0 = values@;
    let mut ks = keys;
    let mut vs = values;
    let mut entries: Vec<(Value, Value)> = Vec::new();
    let mut i: usize = 0;
    assert(k0.skip(0) =~= k0);
    assert(v0.skip(0) =~= v0);
    while i < n
        invariant
            i <= n <= k0.len(),
            n <= v0.len(),
            n == k0.len() || n == v0.len(),
            ks@ == k0.skip(i as int),
            vs@ == v0.skip(i as int),
            entries@ == map_of(k0.take(i as int), v0.take(i as int)),
            keys_unique(entries@),
        decreases n - i,
    {
        let k = ks.remove(0);
        let v = vs.remove(0);
        assert(k == k0[i as int]);
        assert(v == v0[i as int]);
        insert_entry(&mut entries, k, v);
        assert(k0.take(i + 1).take(i as int) =~= k0.take(i as int));
        assert(v0.take(i + 1).take(i as int) =~= v0.take(i as int));
        assert(ks@ =~= k0.skip(i + 1));
        assert(vs@ =~= v0.skip(i + 1));
        i = i + 1;
    }
    proof {
        let m = if k0.len() < v0.len() { k0.len() } else { v0.len() };
        if m == n {
            lemma_map_of_prefix(k0, v0);
        }
    }
    entries
}

proof fn lemma_map_of_prefix(keys: Seq<Value>, values: Seq<Value>)
    ensures
        ({
            let n = if keys.len() < values.len() { keys.len() } else { values.len() };
            map_of(keys, values) == map_of(keys.take(n as int), values.take(n as int))
        }),
{
    let n = if keys.len() < values.len() { keys.len() } else { values.len() };
    if n > 0 {
        assert(keys.take(n as int).take(n - 1) =~= keys.take(n - 1));
        assert(values.take(n as int).take(n - 1) =~= values.take(n - 1));
    }
}

/// A mapping: an unnamed map of the keys and values in order, a later key
/// replacing the value of an earlier same key; extra keys or values beyond
/// the shorter of the two are left out.
pub fn from_map(keys: Vec<Value>, values: Vec<Value>) -> (r: Value)
    ensures
        r matches Value::Dict(d) && d.name is None && d.entries@ == map_of(keys@, values@)
            && d.wf(),
{
    Value::Dict(Dict { name: None, entries: entries_of(keys, values) })
}

/// A record: a map named after it, keyed by its field names as text.
pub fn from_struct(name: String, fields: Vec<String>, values: Vec<Value>) -> (r: Value)
    ensures
        r matches Value::Dict(d) && d.name == Some(name) && d.wf() && d.entries@ == map_of(
            fields@.map_values(|f: String| Value::String(f)),
            values@,
        ),
{
    let ghost f0 = fields@;
    let mut keys: Vec<Value> = Vec::new();
    let mut fs = fields;
    let mut i: usize = 0;
    let n = fs.len();
    assert(f0.skip(0) =~= f0);
    while i < n
        invariant
            i <= n == f0.len(),
            fs@ == f0.skip(i as int),
            keys@ == f0.take(i as int).map_values(|f: String| Value::String(f)),
        decreases n - i,
    {
        let f = fs.remove(0);
        keys.push(Value::String(f));
        assert(fs@ =~= f0.skip(i + 1));
        assert(keys@ =~= f0.take(i + 1).map_values(|f: String| Value::String(f)));
        i = i + 1;
    }
    assert(f0.take(n as int) =~= f0);
    Value::Dict(Dict { name: Some(name), entries: entries_of(keys, values) })
}

} // verus!
