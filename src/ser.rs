use vstd::prelude::*;

use crate::error::{Error, ErrorKind};
use crate::text::{chars_of, push_utf8, string_of};
use crate::value::{Dict, List, Value};
use crate::wire::{TAG_NULL, TAG_TRUE, TAG_FALSE, TAG_REF, TAG_END, TAG_LIST_TYPED, TAG_LIST_UNTYPED, TAG_MAP_TYPED, TAG_MAP_UNTYPED, TAG_BINARY_CHUNK, TAG_BINARY_FINAL, TAG_STRING_CHUNK, TAG_STRING_FINAL, MAX_CHUNK, int_form, write_int, write_long, write_date, write_double, long_form, date_form, double_form};

verus! {

broadcast use {vstd::std_specs::vec::group_vec_axioms, vstd::seq::group_seq_axioms};

/// The last chunk of binary data: the shortest header that can hold its
/// length, then the bytes.
pub open spec fn binary_final(b: Seq<u8>) -> Seq<u8> {
    let n = b.len();
    if n <= 15 {
        seq![(0x20 + n) as u8] + b
    } else if n <= 1023 {
        seq![(0x34 + n / 0x100) as u8, (n % 0x100) as u8] + b
    } else {
        seq![TAG_BINARY_FINAL, (n / 0x100) as u8, (n % 0x100) as u8] + b
    }
}

/// Binary data: full chunks of `MAX_CHUNK` bytes while more than that
/// remains, then one final chunk, possibly empty.
pub open spec fn binary_form(b: Seq<u8>) -> Seq<u8>
    decreases b.len(),
{
    if b.len() > MAX_CHUNK {
        seq![TAG_BINARY_CHUNK, 0x80u8, 0x00u8] + b.take(MAX_CHUNK as int) + binary_form(
            b.skip(MAX_CHUNK as int),
        )
    } else {
        binary_final(b)
    }
}

/// The last chunk of text: the shortest header that can hold its length in
/// code points, then its UTF-8 bytes.
pub open spec fn string_final(cs: Seq<char>) -> Seq<u8> {
    let n = cs.len();
    let body = vstd::utf8::encode_utf8(cs);
    if n <= 31 {
        seq![n as u8] + body
    } else if n <= 1023 {
        seq![(0x30 + n / 0x100) as u8, (n % 0x100) as u8] + body
    } else {
        seq![TAG_STRING_FINAL, (n / 0x100) as u8, (n % 0x100) as u8] + body
    }
}

/// Text: full chunks of `MAX_CHUNK` code points while more than that
/// remains, then one final chunk, possibly empty.
pub open spec fn string_form(cs: Seq<char>) -> Seq<u8>
    decreases cs.len(),
{
    if cs.len() > MAX_CHUNK {
        seq![TAG_STRING_CHUNK, 0x80u8, 0x00u8] + vstd::utf8::encode_utf8(cs.take(MAX_CHUNK as int))
            + string_form(cs.skip(MAX_CHUNK as int))
    } else {
        string_final(cs)
    }
}

/// The opening of a typed list of `len` items: the short form up to seven
/// items, else the tag, the type name and the length.
pub open spec fn typed_list_header(name: Seq<char>, len: nat) -> Seq<u8> {
    if len <= 7 {
        seq![(0x70 + len) as u8] + string_form(name)
    } else {
        seq![TAG_LIST_TYPED] + string_form(name) + int_form(len as int)
    }
}

/// The opening of an untyped list of `len` items: the short form up to
/// seven items, else the tag and the length.
pub open spec fn untyped_list_header(len: nat) -> Seq<u8> {
    if len <= 7 {
        seq![(0x78 + len) as u8]
    } else {
        seq![TAG_LIST_UNTYPED] + int_form(len as int)
    }
}

/// The count of registered values after one more registration; it stays
/// at `MAX_REFS` once there.
pub open spec fn bump(n: nat) -> nat {
    if n < MAX_REFS { n + 1 } else { n }
}

/// The count of registered values beyond which no `Ref` index tells them
/// apart: an index is written as an `Int`.
pub const MAX_REFS: u64 = 0x8000_0000;

/// The largest number of items of a list, whose length is written as an
/// `Int`.
pub const MAX_LEN: usize = 0x7fff_ffff;

/// The bytes of one value written when `n` complex values were registered
/// before it, and the count after it. It fails with `DanglingReference`
/// where a `Ref` in it points at an index not registered by then, and with
/// `UnsupportedValue` where a list is too long for its length to be written.
pub open spec fn value_form(v: Value, n: nat) -> Result<(Seq<u8>, nat), ErrorKind>
    decreases v,
{
    match v {
        Value::Null => Ok((seq![TAG_NULL], n)),
        Value::Bool(b) => Ok((seq![if b { TAG_TRUE } else { TAG_FALSE }], n)),
        Value::Int(i) => Ok((int_form(i as int), n)),
        Value::Long(l) => Ok((long_form(l as int), n)),
        Value::Double(d) => Ok((double_form(d), n)),
        Value::Date(d) => Ok((date_form(d as int), n)),
        Value::Bytes(b) => Ok((binary_form(b@), n)),
        Value::String(s) => Ok((string_form(s@), n)),
        Value::Ref(i) => if (i as nat) < n {
            Ok((seq![TAG_REF] + int_form(i as int), n))
        } else {
            Err(ErrorKind::DanglingReference)
        },
        Value::List(List::Typed(_, items)) if items@.len() > MAX_LEN as nat => Err(ErrorKind::UnsupportedValue),
        Value::List(List::Untyped(items)) if items@.len() > MAX_LEN as nat => Err(ErrorKind::UnsupportedValue),
        Value::List(List::Typed(name, items)) => match items_form(items@, bump(n)) {
            Ok((body, m)) => Ok((typed_list_header(name@, items@.len()) + body, m)),
            Err(e) => Err(e),
        },
        Value::List(List::Untyped(items)) => match items_form(items@, bump(n)) {
            Ok((body, m)) => Ok((untyped_list_header(items@.len()) + body, m)),
            Err(e) => Err(e),
        },
        Value::Dict(d) => match entries_form(d.entries@, bump(n)) {
            Ok((body, m)) => match d.name {
                Some(name) => Ok((seq![TAG_MAP_TYPED] + string_form(name@) + body + seq![TAG_END], m)),
                None => Ok((seq![TAG_MAP_UNTYPED] + body + seq![TAG_END], m)),
            },
            Err(e) => Err(e),
        },
    }
}

/// The values of a sequence written one after another.
pub open spec fn items_form(items: Seq<Value>, n: nat) -> Result<(Seq<u8>, nat), ErrorKind>
    decreases items,
{
    if items.len() == 0 {
        Ok((seq![], n))
    } else {
        match items_form(items.drop_last(), n) {
            Ok((init, m)) => match value_form(items.last(), m) {
                Ok((last, k)) => Ok((init + last, k)),
                Err(e) => Err(e),
            },
            Err(e) => Err(e),
        }
    }
}

/// One entry of a map: its key, then its value.
pub open spec fn entry_form(e: (Value, Value), n: nat) -> Result<(Seq<u8>, nat), ErrorKind>
    decreases e,
{
    match value_form(e.0, n) {
        Ok((k, n1)) => match value_form(e.1, n1) {
            Ok((v, n2)) => Ok((k + v, n2)),
            Err(e) => Err(e),
        },
        Err(e) => Err(e),
    }
}

/// The entries of a map written key, value, key, value.
pub open spec fn entries_form(entries: Seq<(Value, Value)>, n: nat) -> Result<(Seq<u8>, nat), ErrorKind>
    decreases entries,
{
    if entries.len() == 0 {
        Ok((seq![], n))
    } else {
        match entries_form(entries.drop_last(), n) {
            Ok((init, n1)) => match entry_form(entries.last(), n1) {
                Ok((e, n2)) => Ok((init + e, n2)),
                Err(e) => Err(e),
            },
            Err(e) => Err(e),
        }
    }
}

proof fn lemma_items_none(items: Seq<Value>, n: nat, i: int, k: ErrorKind)
    requires
        0 <= i <= items.len(),
        items_form(items.take(i), n) == Err::<(Seq<u8>, nat), ErrorKind>(k),
    ensures
        items_form(items, n) == Err::<(Seq<u8>, nat), ErrorKind>(k),
    decreases items.len() - i,
{
    if i < items.len() {
        assert(items.take(i + 1).drop_last() =~= items.take(i));
        lemma_items_none(items, n, i + 1, k);
    } else {
        assert(items.take(i) =~= items);
    }
}

proof fn lemma_entries_none(entries: Seq<(Value, Value)>, n: nat, i: int, k: ErrorKind)
    requires
        0 <= i <= entries.len(),
        entries_form(entries.take(i), n) == Err::<(Seq<u8>, nat), ErrorKind>(k),
    ensures
        entries_form(entries, n) == Err::<(Seq<u8>, nat), ErrorKind>(k),
    decreases entries.len() - i,
{
    if i < entries.len() {
        assert(entries.take(i + 1).drop_last() =~= entries.take(i));
        lemma_entries_none(entries, n, i + 1, k);
    } else {
        assert(entries.take(i) =~= entries);
    }
}

/// Writes values into bytes, keeping the count of the lists and maps
/// registered so far for the checks of `Ref` cells.
pub struct Serializer {
    out: Vec<u8>,
    refs: u64,
}

impl Serializer {
    /// The bytes written so far.
    pub closed spec fn output(&self) -> Seq<u8> {
        self.out@
    }

    /// The count of the lists and maps registered so far.
    pub closed spec fn registered(&self) -> nat {
        self.refs as nat
    }

    pub closed spec fn wf(&self) -> bool {
        self.refs <= MAX_REFS
    }

    /// A writer with no output and an empty reference table.
    pub fn new() -> (r: Serializer)
        ensures
            r.wf(),
            r.output() == Seq::<u8>::empty(),
            r.registered() == 0,
    {
        Serializer { out: Vec::new(), refs: 0 }
    }

    /// The bytes written.
    pub fn into_bytes(self) -> (r: Vec<u8>)
        ensures
            r@ == self.output(),
    {
        self.out
    }

    /// Writes one value. Lists and maps are registered as they begin; a
    /// `Ref` cell is written as a back-edge to an index registered before.
    pub fn write_value(&mut self, v: &Value) -> (r: Result<(), Error>)
        requires
            old(self).wf(),
        ensures
            final(self).wf(),
            match value_form(*v, old(self).registered()) {
                Ok((b, m)) => r is Ok && final(self).output() == old(self).output() + b
                    && final(self).registered() == m,
                Err(k) => r matches Err(e) && e.kind == k,
            },
        decreases v,
    {
        match v {
            Value::Null => {
                self.out.push(TAG_NULL);
                Ok(())
            },
            Value::Bool(b) => {
                self.out.push(if *b { TAG_TRUE } else { TAG_FALSE });
                Ok(())
            },
            Value::Int(i) => {
                write_int(&mut self.out, *i);
                Ok(())
            },
            Value::Long(l) => {
                write_long(&mut self.out, *l);
                Ok(())
            },
            Value::Double(d) => {
                write_double(&mut self.out, *d);
                Ok(())
            },
            Value::Date(d) => {
                write_date(&mut self.out, *d);
                Ok(())
            },
            Value::Bytes(b) => {
                self.write_bytes(b);
                Ok(())
            },
            Value::String(t) => {
                self.write_string(t);
                Ok(())
            },
            Value::Ref(i) => {
                if (*i as u64) < self.refs {
                    self.out.push(TAG_REF);
                    write_int(&mut self.out, *i as i32);
                    Ok(())
                } else {
                    Err(Error::new(ErrorKind::DanglingReference, "reference to an unregistered value"))
                }
            },
            Value::List(l) => {
                let items = match l {
                    List::Typed(_, items) => items,
                    List::Untyped(items) => items,
                };
                if items.len() > MAX_LEN {
                    return Err(Error::new(ErrorKind::UnsupportedValue, "list too long"));
                }
                let len = items.len();
                match l {
                    List::Typed(name, _) => {
                        if len <= 7 {
                            self.out.push((0x70 + len) as u8);
                            self.write_string(name);
                        } else {
                            self.out.push(TAG_LIST_TYPED);
                            self.write_string(name);
                            write_int(&mut self.out, len as i32);
                        }
                    },
                    List::Untyped(_) => {
                        if len <= 7 {
                            self.out.push((0x78 + len) as u8);
                        } else {
                            self.out.push(TAG_LIST_UNTYPED);
                            write_int(&mut self.out, len as i32);
                        }
                    },
                }
                if self.refs < MAX_REFS {
                    self.refs = self.refs + 1;
                }
                self.write_items(items)
            },
            Value::Dict(d) => {
                match &d.name {
                    Some(name) => {
                        self.out.push(TAG_MAP_TYPED);
                        self.write_string(name);
                    },
                    None => {
                        self.out.push(TAG_MAP_UNTYPED);
                    },
                }
                if self.refs < MAX_REFS {
                    self.refs = self.refs + 1;
                }
                let r = self.write_entries(&d.entries);
                if r.is_ok() {
                    self.out.push(TAG_END);
                }
                r
            },
        }
    }

    fn write_items(&mut self, items: &Vec<Value>) -> (r: Result<(), Error>)
        requires
            old(self).wf(),
        ensures
            final(self).wf(),
            match items_form(items@, old(self).registered()) {
                Ok((b, m)) => r is Ok && final(self).output() == old(self).output() + b
                    && final(self).registered() == m,
                Err(k) => r matches Err(e) && e.kind == k,
            },
        decreases items,
    {
        let len = items.len();
        let mut i: usize = 0;
        assert(items@.take(0) =~= Seq::<Value>::empty());
        while i < len
            invariant
                self.wf(),
                i <= len == items.len(),
                items_form(items@.take(i as int), old(self).refs as nat) matches Ok((b, m))
                    && self.out@ == old(self).out@ + b && self.refs == m,
            decreases len - i,
        {
            assert(items@.take(i + 1).drop_last() =~= items@.take(i as int));
            proof {
                vstd::std_specs::vec::axiom_vec_index_decreases(*items, i as int);
            }
            let r = self.write_value(&items[i]);
            if let Err(e) = r {
                proof {
                    lemma_items_none(items@, old(self).refs as nat, i + 1, e.kind);
                }
                return Err(e);
            }
            i = i + 1;
        }
        assert(items@.take(len as int) =~= items@);
        Ok(())
    }

    fn write_entry(&mut self, e: &(Value, Value)) -> (r: Result<(), Error>)
        requires
            old(self).wf(),
        ensures
            final(self).wf(),
            match entry_form(*e, old(self).registered()) {
                Ok((b, m)) => r is Ok && final(self).output() == old(self).output() + b
                    && final(self).registered() == m,
                Err(k) => r matches Err(x) && x.kind == k,
            },
        decreases e,
    {
        let r = self.write_value(&e.0);
        if r.is_err() {
            return r;
        }
        let r = self.write_value(&e.1);
        if r.is_err() {
            return r;
        }
        Ok(())
    }

    fn write_entries(&mut self, entries: &Vec<(Value, Value)>) -> (r: Result<(), Error>)
        requires
            old(self).wf(),
        ensures
            final(self).wf(),
            match entries_form(entries@, old(self).registered()) {
                Ok((b, m)) => r is Ok && final(self).output() == old(self).output() + b
                    && final(self).registered() == m,
                Err(k) => r matches Err(e) && e.kind == k,
            },
        decreases entries,
    {
        let len = entries.len();
        let mut i: usize = 0;
        assert(entries@.take(0) =~= Seq::<(Value, Value)>::empty());
        while i < len
            invariant
                self.wf(),
                i <= len == entries.len(),
                entries_form(entries@.take(i as int), old(self).refs as nat) matches Ok((b, m))
                    && self.out@ == old(self).out@ + b && self.refs == m,
            decreases len - i,
        {
            assert(entries@.take(i + 1).drop_last() =~= entries@.take(i as int));
            proof {
                vstd::std_specs::vec::axiom_vec_index_decreases(*entries, i as int);
            }
            let r = self.write_entry(&entries[i]);
            if let Err(e) = r {
                proof {
                    lemma_entries_none(entries@, old(self).refs as nat, i + 1, e.kind);
                }
                return Err(e);
            }
            i = i + 1;
        }
        assert(entries@.take(len as int) =~= entries@);
        Ok(())
    }

    fn write_bytes(&mut self, b: &Vec<u8>)
        ensures
            final(self).out@ == old(self).out@ + binary_form(b@),
            final(self).refs == old(self).refs,
    {
        let n = b.len();
        let mut pos: usize = 0;
        assert(b@.skip(0) =~= b@);
        while n - pos > MAX_CHUNK
            invariant
                pos <= n == b.len(),
                self.refs == old(self).refs,
                old(self).out@ + binary_form(b@) == self.out@ + binary_form(b@.skip(pos as int)),
            decreases n - pos,
        {
            let ghost rest = b@.skip(pos as int);
            let ghost before = self.out@;
            self.out.push(TAG_BINARY_CHUNK);
            self.out.push(0x80);
            self.out.push(0x00);
            push_range(&mut self.out, b, pos, pos + MAX_CHUNK);
            assert(rest.take(MAX_CHUNK as int) =~= b@.subrange(pos as int, pos + MAX_CHUNK));
            assert(rest.skip(MAX_CHUNK as int) =~= b@.skip(pos + MAX_CHUNK));
            pos = pos + MAX_CHUNK;
            assert(self.out@ =~= before + seq![TAG_BINARY_CHUNK, 0x80u8, 0x00u8] + rest.take(
                MAX_CHUNK as int,
            ));
            assert(before + binary_form(rest) =~= self.out@ + binary_form(b@.skip(pos as int)));
        }
        let ghost rest = b@.skip(pos as int);
        let ghost before = self.out@;
        let len = n - pos;
        if len <= 15 {
            self.out.push((0x20 + len) as u8);
        } else if len <= 1023 {
            self.out.push((0x34 + len / 0x100) as u8);
            self.out.push((len % 0x100) as u8);
        } else {
            self.out.push(TAG_BINARY_FINAL);
            self.out.push((len / 0x100) as u8);
            self.out.push((len % 0x100) as u8);
        }
        push_range(&mut self.out, b, pos, n);
        assert(rest =~= b@.subrange(pos as int, n as int));
        assert(self.out@ =~= before + binary_final(rest));
    }

    fn write_string(&mut self, s: &String)
        ensures
            final(self).out@ == old(self).out@ + string_form(s@),
            final(self).refs == old(self).refs,
    {
        let cs = chars_of(s.as_str());
        let n = cs.len();
        let mut pos: usize = 0;
        assert(cs@.skip(0) =~= cs@);
        while n - pos > MAX_CHUNK
            invariant
                pos <= n == cs.len(),
                cs@ == s@,
                self.refs == old(self).refs,
                old(self).out@ + string_form(cs@) == self.out@ + string_form(cs@.skip(pos as int)),
            decreases n - pos,
        {
            let ghost rest = cs@.skip(pos as int);
            let ghost before = self.out@;
            self.out.push(TAG_STRING_CHUNK);
            self.out.push(0x80);
            self.out.push(0x00);
            let chunk = string_of(&cs, pos, pos + MAX_CHUNK);
            push_utf8(&mut self.out, &chunk);
            assert(rest.take(MAX_CHUNK as int) =~= cs@.subrange(pos as int, pos + MAX_CHUNK));
            assert(rest.skip(MAX_CHUNK as int) =~= cs@.skip(pos + MAX_CHUNK));
            pos = pos + MAX_CHUNK;
            assert(self.out@ =~= before + seq![TAG_STRING_CHUNK, 0x80u8, 0x00u8]
                + vstd::utf8::encode_utf8(rest.take(MAX_CHUNK as int)));
            assert(before + string_form(rest) =~= self.out@ + string_form(cs@.skip(pos as int)));
        }
        let ghost rest = cs@.skip(pos as int);
        let ghost before = self.out@;
        let len = n - pos;
        if len <= 31 {
            self.out.push(len as u8);
        } else if len <= 1023 {
            self.out.push((0x30 + len / 0x100) as u8);
            self.out.push((len % 0x100) as u8);
        } else {
            self.out.push(TAG_STRING_FINAL);
            self.out.push((len / 0x100) as u8);
            self.out.push((len % 0x100) as u8);
        }
        let chunk = string_of(&cs, pos, n);
        push_utf8(&mut self.out, &chunk);
        assert(rest =~= cs@.subrange(pos as int, n as int));
        assert(self.out@ =~= before + string_final(rest));
    }
}

/// Appends `b[start..end]`.
pub(crate) fn push_range(out: &mut Vec<u8>, b: &Vec<u8>, start: usize, end: usize)
    requires
        start <= end <= b.len(),
    ensures
        final(out)@ == old(out)@ + b@.subrange(start as int, end as int),
{
    let mut i = start;
    while i < end
        invariant
            start <= i <= end <= b.len(),
            out@ == old(out)@ + b@.subrange(start as int, i as int),
        decreases end - i,
    {
        out.push(b[i]);
        i = i + 1;
        assert(out@ =~= old(out)@ + b@.subrange(start as int, i as int));
    }
}

/// Encodes one value with a fresh reference table.
pub fn to_bytes(v: &Value) -> (r: Result<Vec<u8>, Error>)
    ensures
        match value_form(*v, 0) {
            Ok((b, _)) => r matches Ok(out) && out@ == b,
            Err(k) => r matches Err(e) && e.kind == k,
        },
{
    let mut w = Serializer::new();
    match w.write_value(v) {
        Ok(()) => Ok(w.into_bytes()),
        Err(e) => Err(e),
    }
}

} // verus!
