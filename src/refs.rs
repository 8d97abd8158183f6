use vstd::prelude::*;

use crate::ser::{MAX_REFS, bump};
use crate::value::{List, Value};

verus! {

broadcast use {vstd::std_specs::vec::group_vec_axioms, vstd::seq::group_seq_axioms};

/// Where a search for a registered value stands after part of a tree: the
/// value was found, or the walk went past with this registration count.
pub enum Walk {
    Found(Value),
    Passed(nat),
}

/// The search for the complex value registered at index `target` through
/// `v`, entered with `n` values registered before it. A list or a map is
/// registered before its contents, in document order, as the reader and
/// the writer register it.
pub open spec fn walk(v: Value, n: nat, target: nat) -> Walk
    decreases v,
{
    match v {
        Value::List(l) => if n == target {
            Walk::Found(v)
        } else {
            match l {
                List::Typed(_, items) => walk_items(items@, bump(n), target),
                List::Untyped(items) => walk_items(items@, bump(n), target),
            }
        },
        Value::Dict(d) => if n == target {
            Walk::Found(v)
        } else {
            walk_entries(d.entries@, bump(n), target)
        },
        _ => Walk::Passed(n),
    }
}

pub open spec fn walk_items(items: Seq<Value>, n: nat, target: nat) -> Walk
    decreases items,
{
    if items.len() == 0 {
        Walk::Passed(n)
    } else {
        match walk_items(items.drop_last(), n, target) {
            Walk::Found(x) => Walk::Found(x),
            Walk::Passed(m) => walk(items.last(), m, target),
        }
    }
}

pub open spec fn walk_entries(entries: Seq<(Value, Value)>, n: nat, target: nat) -> Walk
    decreases entries,
{
    if entries.len() == 0 {
        Walk::Passed(n)
    } else {
        match walk_entries(entries.drop_last(), n, target) {
            Walk::Found(x) => Walk::Found(x),
            Walk::Passed(m) => walk_entry(entries.last(), m, target),
        }
    }
}

pub open spec fn walk_entry(e: (Value, Value), n: nat, target: nat) -> Walk
    decreases e,
{
    match walk(e.0, n, target) {
        Walk::Found(x) => Walk::Found(x),
        Walk::Passed(m) => walk(e.1, m, target),
    }
}

proof fn lemma_items_found(items: Seq<Value>, n: nat, t: nat, i: int, x: Value)
    requires
        0 <= i <= items.len(),
        walk_items(items.take(i), n, t) == Walk::Found(x),
    ensures
        walk_items(items, n, t) == Walk::Found(x),
    decreases items.len() - i,
{
    if i < items.len() {
        assert(items.take(i + 1).drop_last() =~= items.take(i));
        lemma_items_found(items, n, t, i + 1, x);
    } else {
        assert(items.take(i) =~= items);
    }
}

proof fn lemma_entries_found(entries: Seq<(Value, Value)>, n: nat, t: nat, i: int, x: Value)
    requires
        0 <= i <= entries.len(),
        walk_entries(entries.take(i), n, t) == Walk::Found(x),
    ensures
        walk_entries(entries, n, t) == Walk::Found(x),
    decreases entries.len() - i,
{
    if i < entries.len() {
        assert(entries.take(i + 1).drop_last() =~= entries.take(i));
        lemma_entries_found(entries, n, t, i + 1, x);
    } else {
        assert(entries.take(i) =~= entries);
    }
}

/// The result of a search in exec form: found, or passed with a count.
pub open spec fn agrees(r: Result<&Value, u64>, w: Walk) -> bool {
    match w {
        Walk::Found(x) => r matches Ok(y) && *y == x,
        Walk::Passed(m) => r matches Err(k) && k as nat == m,
    }
}

fn find<'a>(v: &'a Value, n: u64, target: u64) -> (r: Result<&'a Value, u64>)
    requires
        n <= MAX_REFS,
        target < MAX_REFS,
    ensures
        agrees(r, walk(*v, n as nat, target as nat)),
        r matches Err(m) ==> m <= MAX_REFS,
    decreases v,
{
    match v {
        Value::List(l) => {
            if n == target {
                return Ok(v);
            }
            let next = if n < MAX_REFS { n + 1 } else { n };
            match l {
                List::Typed(_, items) => find_items(items, next, target),
                List::Untyped(items) => find_items(items, next, target),
            }
        },
        Value::Dict(d) => {
            if n == target {
                return Ok(v);
            }
            let next = if n < MAX_REFS { n + 1 } else { n };
            find_entries(&d.entries, next, target)
        },
        _ => Err(n),
    }
}

fn find_items<'a>(items: &'a Vec<Value>, n: u64, target: u64) -> (r: Result<&'a Value, u64>)
    requires
        n <= MAX_REFS,
        target < MAX_REFS,
    ensures
        agrees(r, walk_items(items@, n as nat, target as nat)),
        r matches Err(m) ==> m <= MAX_REFS,
    decreases items,
{
    let mut m = n;
    let mut i: usize = 0;
    assert(items@.take(0) =~= Seq::<Value>::empty());
    while i < items.len()
        invariant
            i <= items.len(),
            m <= MAX_REFS,
            target < MAX_REFS,
            walk_items(items@.take(i as int), n as nat, target as nat) == Walk::Passed(m as nat),
        decreases items.len() - i,
    {
        assert(items@.take(i + 1).drop_last() =~= items@.take(i as int));
        assert(items@.take(i + 1).last() == items@[i as int]);
        proof {
            vstd::std_specs::vec::axiom_vec_index_decreases(*items, i as int);
        }
        match find(&items[i], m, target) {
            Ok(x) => {
                proof {
                    lemma_items_found(items@, n as nat, target as nat, i + 1, *x);
                }
                return Ok(x);
            },
            Err(k) => {
                m = k;
            },
        }
        i = i + 1;
    }
    assert(items@.take(i as int) =~= items@);
    Err(m)
}

fn find_entries<'a>(entries: &'a Vec<(Value, Value)>, n: u64, target: u64) -> (r: Result<&'a Value, u64>)
    requires
        n <= MAX_REFS,
        target < MAX_REFS,
    ensures
        agrees(r, walk_entries(entries@, n as nat, target as nat)),
        r matches Err(m) ==> m <= MAX_REFS,
    decreases entries,
{
    let mut m = n;
    let mut i: usize = 0;
    assert(entries@.take(0) =~= Seq::<(Value, Value)>::empty());
    while i < entries.len()
        invariant
            i <= entries.len(),
            m <= MAX_REFS,
            target < MAX_REFS,
            walk_entries(entries@.take(i as int), n as nat, target as nat) == Walk::Passed(m as nat),
        decreases entries.len() - i,
    {
        assert(entries@.take(i + 1).drop_last() =~= entries@.take(i as int));
        assert(entries@.take(i + 1).last() == entries@[i as int]);
        proof {
            vstd::std_specs::vec::axiom_vec_index_decreases(*entries, i as int);
        }
        let e = &entries[i];
        let ghost m0 = m;
        assert(*e == entries@[i as int]);
        match find(&e.0, m, target) {
            Ok(x) => {
                proof {
                    assert(walk_entry(*e, m0 as nat, target as nat) == Walk::Found(*x));
                    assert(walk_entries(entries@.take(i + 1), n as nat, target as nat) == Walk::Found(*x));
                    lemma_entries_found(entries@, n as nat, target as nat, i + 1, *x);
                }
                return Ok(x);
            },
            Err(k) => {
                match find(&e.1, k, target) {
                    Ok(x) => {
                        proof {
                            assert(walk_entry(*e, m0 as nat, target as nat) == Walk::Found(*x));
                            assert(walk_entries(entries@.take(i + 1), n as nat, target as nat) == Walk::Found(*x));
                            lemma_entries_found(entries@, n as nat, target as nat, i + 1, *x);
                        }
                        return Ok(x);
                    },
                    Err(k2) => {
                        assert(walk_entry(*e, m0 as nat, target as nat) == Walk::Passed(k2 as nat));
                        m = k2;
                    },
                }
            },
        }
        i = i + 1;
    }
    assert(entries@.take(i as int) =~= entries@);
    Err(m)
}

/// The list or map that was registered at `index` while `root` was read
/// from the start of an input: `None` where fewer values were registered.
/// A `Ref` cell of the tree leads here to the value it stands for.
pub fn resolve<'a>(root: &'a Value, index: u32) -> (r: Option<&'a Value>)
    ensures
        index < MAX_REFS ==> match walk(*root, 0, index as nat) {
            Walk::Found(x) => r matches Some(y) && *y == x,
            Walk::Passed(_) => r is None,
        },
        index >= MAX_REFS ==> r is None,
{
    if index as u64 >= MAX_REFS {
        return None;
    }
    match find(root, 0, index as u64) {
        Ok(x) => Some(x),
        Err(_) => None,
    }
}

} // verus!
