use vstd::prelude::*;

verus! {

broadcast use {vstd::std_specs::vec::group_vec_axioms, vstd::seq::group_seq_axioms};

/// A value of the wire format's data model.
///
/// A `Double` is held as its IEEE-754 bit pattern, so that two doubles are
/// the same value (and the same map key) exactly when their bits agree.
/// Back-edges of shared or cyclic graphs are `Ref` indices into the
/// reference table of the decode or encode pass that produced them.
#[derive(Debug, PartialEq)]
pub enum Value {
    Null,
    Bool(bool),
    Int(i32),
    Long(i64),
    Double(u64),
    Date(i64),
    Bytes(Vec<u8>),
    String(String),
    Ref(u32),
    List(List),
    Dict(Dict),
}

/// A list, with or without a type name.
#[derive(Debug, PartialEq)]
pub enum List {
    Typed(String, Vec<Value>),
    Untyped(Vec<Value>),
}

/// A map with an optional type name; its entries in order, each key once.
#[derive(Debug, PartialEq)]
pub struct Dict {
    pub name: Option<String>,
    pub entries: Vec<(Value, Value)>,
}

impl List {
    pub open spec fn items(&self) -> Seq<Value> {
        match self {
            List::Typed(_, v) => v@,
            List::Untyped(v) => v@,
        }
    }
}

/// The mathematical content of a value: sequences in place of vectors and
/// text as its code points.
pub enum Model {
    Null,
    Bool(bool),
    Int(i32),
    Long(i64),
    Double(u64),
    Date(i64),
    Bytes(Seq<u8>),
    Text(Seq<char>),
    Ref(u32),
    Typed(Seq<char>, Seq<Model>),
    Untyped(Seq<Model>),
    Dict(Option<Seq<char>>, Seq<(Model, Model)>),
}

/// The code points of an optional type name.
pub open spec fn name_model(n: Option<String>) -> Option<Seq<char>> {
    match n {
        Some(s) => Some(s@),
        None => None,
    }
}

/// The content of a value.
pub open spec fn model(v: Value) -> Model
    decreases v,
{
    match v {
        Value::Null => Model::Null,
        Value::Bool(b) => Model::Bool(b),
        Value::Int(i) => Model::Int(i),
        Value::Long(l) => Model::Long(l),
        Value::Double(d) => Model::Double(d),
        Value::Date(d) => Model::Date(d),
        Value::Bytes(b) => Model::Bytes(b@),
        Value::String(s) => Model::Text(s@),
        Value::Ref(i) => Model::Ref(i),
        Value::List(List::Typed(n, x)) => Model::Typed(n@, models(x@)),
        Value::List(List::Untyped(x)) => Model::Untyped(models(x@)),
        Value::Dict(d) => Model::Dict(name_model(d.name), entry_models(d.entries@)),
    }
}

/// The contents of a sequence of values, in order.
pub open spec fn models(x: Seq<Value>) -> Seq<Model>
    decreases x,
{
    if x.len() == 0 {
        Seq::empty()
    } else {
        models(x.drop_last()).push(model(x.last()))
    }
}

/// The contents of a sequence of entries, in order.
pub open spec fn entry_models(x: Seq<(Value, Value)>) -> Seq<(Model, Model)>
    decreases x,
{
    if x.len() == 0 {
        Seq::empty()
    } else {
        entry_models(x.drop_last()).push(entry_model(x.last()))
    }
}

pub open spec fn entry_model(e: (Value, Value)) -> (Model, Model)
    decreases e,
{
    (model(e.0), model(e.1))
}

pub proof fn lemma_models_index(x: Seq<Value>)
    ensures
        models(x).len() == x.len(),
        forall|i: int| 0 <= i < x.len() ==> #[trigger] models(x)[i] == model(x[i]),
    decreases x.len(),
{
    if x.len() > 0 {
        lemma_models_index(x.drop_last());
    }
}

pub proof fn lemma_entry_models_index(x: Seq<(Value, Value)>)
    ensures
        entry_models(x).len() == x.len(),
        forall|i: int| 0 <= i < x.len() ==> #[trigger] entry_models(x)[i] == entry_model(x[i]),
    decreases x.len(),
{
    if x.len() > 0 {
        lemma_entry_models_index(x.drop_last());
    }
}

/// Two keys name the same entry when their contents are equal: doubles by
/// bit pattern, text and bytes by content, lists by type name and items in
/// order, maps by type name and entries in order.
pub open spec fn same_key(a: Value, b: Value) -> bool {
    model(a) == model(b)
}

/// Each key stands at most once.
pub open spec fn keys_unique(entries: Seq<(Value, Value)>) -> bool {
    forall|i: int, j: int|
        0 <= i < j < entries.len() ==> !same_key(entries[i].0, entries[j].0)
}

impl Dict {
    pub open spec fn wf(&self) -> bool {
        keys_unique(self.entries@)
    }
}

/// The entries whose key is not the same as `k`, in order.
pub open spec fn drop_key(entries: Seq<(Value, Value)>, k: Value) -> Seq<(Value, Value)>
    decreases entries.len(),
{
    if entries.len() == 0 {
        Seq::empty()
    } else {
        let r = drop_key(entries.drop_last(), k);
        if same_key(entries.last().0, k) {
            r
        } else {
            r.push(entries.last())
        }
    }
}

/// The entries after putting `(k, v)`: any entry with the same key is taken
/// out and the new entry goes last, so the last write wins.
pub open spec fn put(entries: Seq<(Value, Value)>, k: Value, v: Value) -> Seq<(Value, Value)> {
    drop_key(entries, k).push((k, v))
}

/// The model entries whose key is not `k`, in order.
pub open spec fn model_drop(entries: Seq<(Model, Model)>, k: Model) -> Seq<(Model, Model)>
    decreases entries.len(),
{
    if entries.len() == 0 {
        Seq::empty()
    } else {
        let r = model_drop(entries.drop_last(), k);
        if entries.last().0 == k {
            r
        } else {
            r.push(entries.last())
        }
    }
}

/// `put` on the contents of a map.
pub open spec fn model_put(entries: Seq<(Model, Model)>, k: Model, v: Model) -> Seq<(Model, Model)> {
    model_drop(entries, k).push((k, v))
}

pub proof fn lemma_put_model(es: Seq<(Value, Value)>, k: Value, v: Value)
    ensures
        entry_models(put(es, k, v)) == model_put(entry_models(es), model(k), model(v)),
    decreases es.len(),
{
    lemma_drop_model(es, k);
    let d = drop_key(es, k);
    assert(d.push((k, v)).drop_last() =~= d);
    assert(d.push((k, v)).last() == (k, v));
    assert(entry_model((k, v)) == (model(k), model(v)));
}

proof fn lemma_drop_model(es: Seq<(Value, Value)>, k: Value)
    ensures
        entry_models(drop_key(es, k)) == model_drop(entry_models(es), model(k)),
    decreases es.len(),
{
    if es.len() > 0 {
        lemma_drop_model(es.drop_last(), k);
        let r = drop_key(es.drop_last(), k);
        assert(r.push(es.last()).drop_last() =~= r);
        assert(r.push(es.last()).last() == es.last());
        let me = entry_models(es);
        assert(me.drop_last() =~= entry_models(es.drop_last()));
        assert(me.last() == entry_model(es.last()));
        assert(entry_model(es.last()).0 == model(es.last().0));
        assert(entry_models(r.push(es.last())) == entry_models(r).push(entry_model(es.last())));
    }
}

/// The entries of a map built by putting `keys[i]` with `values[i]` in
/// order, as far as both sequences go.
pub open spec fn map_of(keys: Seq<Value>, values: Seq<Value>) -> Seq<(Value, Value)>
    decreases keys.len(),
{
    let n = if keys.len() < values.len() { keys.len() } else { values.len() };
    if n == 0 {
        Seq::empty()
    } else {
        put(
            map_of(keys.take(n - 1), values.take(n - 1)),
            keys[n - 1],
            values[n - 1],
        )
    }
}

/// Whether two values are the same map key.
pub fn key_eq(a: &Value, b: &Value) -> (r: bool)
    ensures
        r == same_key(*a, *b),
    decreases a,
{
    match (a, b) {
        (Value::Null, Value::Null) => true,
        (Value::Bool(x), Value::Bool(y)) => *x == *y,
        (Value::Int(x), Value::Int(y)) => *x == *y,
        (Value::Long(x), Value::Long(y)) => *x == *y,
        (Value::Double(x), Value::Double(y)) => *x == *y,
        (Value::Date(x), Value::Date(y)) => *x == *y,
        (Value::Bytes(x), Value::Bytes(y)) => bytes_eq(x, y),
        (Value::String(x), Value::String(y)) => *x == *y,
        (Value::Ref(x), Value::Ref(y)) => *x == *y,
        (Value::List(List::Typed(n, x)), Value::List(List::Typed(m, y))) => {
            *n == *m && items_eq(x, y)
        },
        (Value::List(List::Untyped(x)), Value::List(List::Untyped(y))) => items_eq(x, y),
        (Value::Dict(d), Value::Dict(e)) => {
            let names = match (&d.name, &e.name) {
                (None, None) => true,
                (Some(p), Some(q)) => *p == *q,
                _ => false,
            };
            names && entries_eq(&d.entries, &e.entries)
        },
        _ => false,
    }
}

fn items_eq(x: &Vec<Value>, y: &Vec<Value>) -> (r: bool)
    ensures
        r == (models(x@) == models(y@)),
    decreases x,
{
    proof {
        lemma_models_index(x@);
        lemma_models_index(y@);
    }
    if x.len() != y.len() {
        return false;
    }
    let mut i: usize = 0;
    while i < x.len()
        invariant
            x.len() == y.len(),
            i <= x.len(),
            models(x@).len() == x@.len() && models(y@).len() == y@.len(),
            forall|j: int| 0 <= j < x@.len() ==> #[trigger] models(x@)[j] == model(x@[j]),
            forall|j: int| 0 <= j < y@.len() ==> #[trigger] models(y@)[j] == model(y@[j]),
            forall|k: int| 0 <= k < i ==> models(x@)[k] == models(y@)[k],
        decreases x.len() - i,
    {
        proof {
            vstd::std_specs::vec::axiom_vec_index_decreases(*x, i as int);
        }
        if !key_eq(&x[i], &y[i]) {
            assert(models(x@)[i as int] != models(y@)[i as int]);
            return false;
        }
        i = i + 1;
    }
    assert(models(x@) =~= models(y@));
    true
}

fn entries_eq(x: &Vec<(Value, Value)>, y: &Vec<(Value, Value)>) -> (r: bool)
    ensures
        r == (entry_models(x@) == entry_models(y@)),
    decreases x,
{
    proof {
        lemma_entry_models_index(x@);
        lemma_entry_models_index(y@);
    }
    if x.len() != y.len() {
        return false;
    }
    let mut i: usize = 0;
    while i < x.len()
        invariant
            x.len() == y.len(),
            i <= x.len(),
            entry_models(x@).len() == x@.len() && entry_models(y@).len() == y@.len(),
            forall|j: int| 0 <= j < x@.len() ==> #[trigger] entry_models(x@)[j] == entry_model(x@[j]),
            forall|j: int| 0 <= j < y@.len() ==> #[trigger] entry_models(y@)[j] == entry_model(y@[j]),
            forall|k: int| 0 <= k < i ==> entry_models(x@)[k] == entry_models(y@)[k],
        decreases x.len() - i,
    {
        proof {
            vstd::std_specs::vec::axiom_vec_index_decreases(*x, i as int);
        }
        let e = &x[i];
        let f = &y[i];
        if !key_eq(&e.0, &f.0) {
            assert(entry_models(x@)[i as int] != entry_models(y@)[i as int]);
            return false;
        }
        if !key_eq(&e.1, &f.1) {
            assert(entry_models(x@)[i as int] != entry_models(y@)[i as int]);
            return false;
        }
        i = i + 1;
    }
    assert(entry_models(x@) =~= entry_models(y@));
    true
}

fn bytes_eq(x: &Vec<u8>, y: &Vec<u8>) -> (r: bool)
    ensures
        r == (x@ == y@),
{
    if x.len() != y.len() {
        return false;
    }
    let mut i: usize = 0;
    while i < x.len()
        invariant
            x.len() == y.len(),
            i <= x.len(),
            forall|k: int| 0 <= k < i ==> x@[k] == y@[k],
        decreases x.len() - i,
    {
        if x[i] != y[i] {
            return false;
        }
        i = i + 1;
    }
    assert(x@ =~= y@);
    true
}

} // verus!
