use vstd::prelude::*;

use crate::value::{List, Value, drop_key, put};

verus! {

broadcast use {vstd::std_specs::vec::group_vec_axioms, vstd::seq::group_seq_axioms};

/// Every `Ref` in `v`, at any depth, points below `n`.
pub open spec fn refs_below(v: Value, n: nat) -> bool
    decreases v,
{
    match v {
        Value::Ref(i) => (i as nat) < n,
        Value::List(List::Typed(_, x)) => items_refs_below(x@, n),
        Value::List(List::Untyped(x)) => items_refs_below(x@, n),
        Value::Dict(d) => entries_refs_below(d.entries@, n),
        _ => true,
    }
}

pub open spec fn items_refs_below(x: Seq<Value>, n: nat) -> bool
    decreases x,
{
    x.len() == 0 || (items_refs_below(x.drop_last(), n) && refs_below(x.last(), n))
}

pub open spec fn entries_refs_below(x: Seq<(Value, Value)>, n: nat) -> bool
    decreases x,
{
    x.len() == 0 || (entries_refs_below(x.drop_last(), n) && entry_refs_below(x.last(), n))
}

pub open spec fn entry_refs_below(e: (Value, Value), n: nat) -> bool
    decreases e,
{
    refs_below(e.0, n) && refs_below(e.1, n)
}

pub proof fn lemma_refs_below_mono(v: Value, n: nat, m: nat)
    requires
        refs_below(v, n),
        n <= m,
    ensures
        refs_below(v, m),
    decreases v,
{
    match v {
        Value::List(List::Typed(_, x)) => lemma_items_mono(x@, n, m),
        Value::List(List::Untyped(x)) => lemma_items_mono(x@, n, m),
        Value::Dict(d) => lemma_entries_mono(d.entries@, n, m),
        _ => {},
    }
}

pub proof fn lemma_items_mono(x: Seq<Value>, n: nat, m: nat)
    requires
        items_refs_below(x, n),
        n <= m,
    ensures
        items_refs_below(x, m),
    decreases x,
{
    if x.len() > 0 {
        lemma_items_mono(x.drop_last(), n, m);
        lemma_refs_below_mono(x.last(), n, m);
    }
}

pub proof fn lemma_entries_mono(x: Seq<(Value, Value)>, n: nat, m: nat)
    requires
        entries_refs_below(x, n),
        n <= m,
    ensures
        entries_refs_below(x, m),
    decreases x,
{
    if x.len() > 0 {
        lemma_entries_mono(x.drop_last(), n, m);
        assert(entry_refs_below(x.last(), n));
        lemma_refs_below_mono(x.last().0, n, m);
        lemma_refs_below_mono(x.last().1, n, m);
        assert(entry_refs_below(x.last(), m));
    }
}

pub proof fn lemma_drop_key_refs(x: Seq<(Value, Value)>, k: Value, n: nat)
    requires
        entries_refs_below(x, n),
    ensures
        entries_refs_below(drop_key(x, k), n),
    decreases x.len(),
{
    if x.len() > 0 {
        lemma_drop_key_refs(x.drop_last(), k, n);
        let r = drop_key(x.drop_last(), k);
        assert(r.push(x.last()).drop_last() =~= r);
    }
}

pub proof fn lemma_put_refs(x: Seq<(Value, Value)>, k: Value, v: Value, n: nat)
    requires
        entries_refs_below(x, n),
        refs_below(k, n),
        refs_below(v, n),
    ensures
        entries_refs_below(put(x, k, v), n),
{
    lemma_drop_key_refs(x, k, n);
    let r = drop_key(x, k);
    assert(r.push((k, v)).drop_last() =~= r);
    assert(r.push((k, v)).last() == (k, v));
    assert(entry_refs_below((k, v), n));
}

} // verus!
