use vstd::prelude::*;

use vstd::utf8::{decode_utf8, encode_scalar, encode_utf8, valid_utf8};

use crate::de::{binary_header, lead_width, parse_binary, parse_string_bytes, scalar_of, scalar_width, string_header, utf8_span};
use crate::ser::{MAX_REFS, binary_final, binary_form, string_final, string_form, value_form};
use crate::value::{List, Value};
use crate::wire::{MAX_CHUNK, TAG_DATE, TAG_DATE_MINUTE, TAG_REF, be4, be8, in_i32, int_form, lemma_be4_round_trip, lemma_be8_round_trip, lemma_date_round_trip, lemma_int_round_trip, lemma_long_round_trip, lemma_u64_of_be8};

verus! {

/// A scalar is one of the values whose encoding a single tag and a fixed
/// number of bytes after it make up.
pub open spec fn is_scalar(v: Value) -> bool {
    v is Null || v is Bool || v is Int || v is Long || v is Double || v is Date
}

/// Decoding what encoding wrote gives back the same scalar, whatever bytes
/// follow, and reads exactly the bytes written; writing it registers
/// nothing.
pub proof fn lemma_scalar_round_trip(v: Value, n: nat, rest: Seq<u8>)
    requires
        is_scalar(v),
    ensures
        value_form(v, n) matches Ok((b, m)) && m == n && b.len() > 0 && scalar_width(b[0])
            == b.len() && scalar_of(b + rest) == v,
{
    let (b, m) = value_form(v, n)->Ok_0;
    let s = b + rest;
    match v {
        Value::Int(i) => {
            lemma_int_round_trip(i);
            if b.len() == 5 {
                assert(s.subrange(1, 5) =~= b.subrange(1, 5));
            }
            if b.len() >= 3 {
                assert(s[1] == b[1] && s[2] == b[2]);
            } else if b.len() == 2 {
                assert(s[1] == b[1]);
            }
        },
        Value::Long(l) => {
            lemma_long_round_trip(l);
            if b.len() == 5 {
                assert(s.subrange(1, 5) =~= b.subrange(1, 5));
            } else if b.len() == 9 {
                assert(s.subrange(1, 9) =~= b.subrange(1, 9));
            } else if b.len() == 3 {
                assert(s[1] == b[1] && s[2] == b[2]);
            } else if b.len() == 2 {
                assert(s[1] == b[1]);
            }
        },
        Value::Date(d) => {
            lemma_date_round_trip(d);
            if b.len() == 5 {
                assert(s.subrange(1, 5) =~= b.subrange(1, 5));
            } else {
                assert(s.subrange(1, 9) =~= b.subrange(1, 9));
            }
        },
        Value::Double(d) => {
            let c = crate::wire::int_candidate(d);
            let f = crate::wire::float_candidate(d);
            if d == 0 || d == crate::wire::DOUBLE_ONE_BITS {
            } else if -0x80 <= c < 0x80 && crate::float::double_bits_of_int(c) == d {
                assert(s[1] == b[1]);
            } else if -0x8000 <= c < 0x8000 && crate::float::double_bits_of_int(c) == d {
                assert(s[1] == b[1] && s[2] == b[2]);
                let w = (c + 0x1_0000) % 0x1_0000;
                assert(w == (w / 0x100) * 0x100 + w % 0x100);
            } else if crate::float::double_bits_of_float(f) == d {
                crate::wire::lemma_u32_of_be4(f as int);
                assert(s.subrange(1, 5) =~= be4(f as int));
            } else {
                lemma_u64_of_be8(d as int);
                assert(s.subrange(1, 9) =~= be8(d as int));
            }
        },
        _ => {},
    }
}

/// Binary data written in chunks reads back as the same bytes, whatever
/// follows, taking exactly the bytes written.
pub proof fn lemma_binary_round_trip(b: Seq<u8>, rest: Seq<u8>)
    ensures
        parse_binary(binary_form(b) + rest) == Some((b, binary_form(b).len() as int)),
    decreases b.len(),
{
    let s = binary_form(b) + rest;
    if b.len() > MAX_CHUNK {
        let tail = b.skip(MAX_CHUNK as int);
        lemma_binary_round_trip(tail, rest);
        assert(binary_header(s) == Some((3int, MAX_CHUNK as int, false)));
        assert(s.subrange(3, 3 + MAX_CHUNK) =~= b.take(MAX_CHUNK as int));
        assert(s.skip(3 + MAX_CHUNK) =~= binary_form(tail) + rest);
        assert(b.take(MAX_CHUNK as int) + tail =~= b);
    } else {
        let n = b.len() as int;
        if n <= 15 {
            assert(binary_header(s) == Some((1int, n, true)));
            assert(s.subrange(1, 1 + n) =~= b);
        } else if n <= 1023 {
            assert(binary_header(s) == Some((2int, n, true)));
            assert(s.subrange(2, 2 + n) =~= b);
        } else {
            assert(binary_header(s) == Some((3int, n, true)));
            assert(s.subrange(3, 3 + n) =~= b);
        }
    }
}

proof fn lemma_encode_utf8_concat(a: Seq<char>, b: Seq<char>)
    ensures
        encode_utf8(a + b) == encode_utf8(a) + encode_utf8(b),
    decreases a.len(),
{
    if a.len() > 0 {
        assert((a + b).drop_first() =~= a.drop_first() + b);
        lemma_encode_utf8_concat(a.drop_first(), b);
        assert(encode_utf8(a + b) =~= encode_scalar((a + b)[0] as u32) + encode_utf8(
            a.drop_first() + b,
        ));
        assert(encode_utf8(a) + encode_utf8(b) =~= encode_scalar(a[0] as u32) + (encode_utf8(
            a.drop_first(),
        ) + encode_utf8(b)));
    } else {
        assert(a + b =~= b);
    }
}

proof fn lemma_utf8_span(cs: Seq<char>, rest: Seq<u8>)
    ensures
        utf8_span(encode_utf8(cs) + rest, cs.len()) == Some(encode_utf8(cs).len() as int),
    decreases cs.len(),
{
    if cs.len() > 0 {
        let e = encode_utf8(cs);
        let s = e + rest;
        let first = encode_scalar(cs[0] as u32);
        vstd::utf8::encode_utf8_first_scalar(cs);
        assert(e == first + encode_utf8(cs.drop_first()));
        assert(s[0] == e[0]);
        assert(lead_width(s[0]) == first.len());
        lemma_utf8_span(cs.drop_first(), rest);
        assert(s.skip(first.len() as int) =~= encode_utf8(cs.drop_first()) + rest);
    }
}

/// Text written in chunks reads back as its UTF-8 bytes, whatever follows,
/// taking exactly the bytes written; those bytes decode to the same code
/// points.
pub proof fn lemma_text_round_trip(cs: Seq<char>, rest: Seq<u8>)
    ensures
        parse_string_bytes(string_form(cs) + rest) == Some(
            (encode_utf8(cs), string_form(cs).len() as int),
        ),
        valid_utf8(encode_utf8(cs)),
        decode_utf8(encode_utf8(cs)) == cs,
    decreases cs.len(),
{
    vstd::utf8::encode_utf8_valid_utf8(cs);
    vstd::utf8::encode_utf8_decode_utf8(cs);
    let s = string_form(cs) + rest;
    if cs.len() > MAX_CHUNK {
        let head = cs.take(MAX_CHUNK as int);
        let tail = cs.skip(MAX_CHUNK as int);
        let eh = encode_utf8(head);
        lemma_text_round_trip(tail, rest);
        assert(string_header(s) == Some((3int, MAX_CHUNK as int, false)));
        assert(s.skip(3) =~= eh + (string_form(tail) + rest));
        lemma_utf8_span(head, string_form(tail) + rest);
        assert(s.subrange(3, 3 + eh.len() as int) =~= eh);
        assert(s.skip(3 + eh.len() as int) =~= string_form(tail) + rest);
        assert(head + tail =~= cs);
        lemma_encode_utf8_concat(head, tail);
    } else {
        let n = cs.len() as int;
        let e = encode_utf8(cs);
        if n <= 31 {
            assert(string_header(s) == Some((1int, n, true)));
            assert(s.skip(1) =~= e + rest);
            lemma_utf8_span(cs, rest);
            assert(s.subrange(1, 1 + e.len() as int) =~= e);
        } else if n <= 1023 {
            assert(string_header(s) == Some((2int, n, true)));
            assert(s.skip(2) =~= e + rest);
            lemma_utf8_span(cs, rest);
            assert(s.subrange(2, 2 + e.len() as int) =~= e);
        } else {
            assert(string_header(s) == Some((3int, n, true)));
            assert(s.skip(3) =~= e + rest);
            lemma_utf8_span(cs, rest);
            assert(s.subrange(3, 3 + e.len() as int) =~= e);
        }
    }
}

/// A date in the compact minute form and the same instant in the full
/// millisecond form decode to the same `Date`.
pub proof fn lemma_date_forms_agree(minutes: int)
    requires
        in_i32(minutes),
    ensures
        scalar_of(seq![TAG_DATE_MINUTE] + be4(minutes)) == scalar_of(seq![TAG_DATE] + be8(minutes * 60000)),
        scalar_of(seq![TAG_DATE_MINUTE] + be4(minutes)) == Value::Date((minutes * 60000) as i64),
{
    let a = seq![TAG_DATE_MINUTE] + be4(minutes);
    let b = seq![TAG_DATE] + be8(minutes * 60000);
    lemma_be4_round_trip(minutes);
    lemma_be8_round_trip(minutes * 60000);
    assert(a.subrange(1, 5) =~= be4(minutes));
    assert(b.subrange(1, 9) =~= be8(minutes * 60000));
}

/// Text of exactly `MAX_CHUNK` code points is one final chunk; one code
/// point more makes one full chunk and a final chunk of one code point.
pub proof fn lemma_string_chunk_boundary(cs: Seq<char>)
    requires
        cs.len() == MAX_CHUNK || cs.len() == MAX_CHUNK + 1,
    ensures
        cs.len() == MAX_CHUNK ==> string_form(cs) == string_final(cs),
        cs.len() == MAX_CHUNK + 1 ==> string_form(cs) == seq![0x52u8, 0x80u8, 0x00u8]
            + vstd::utf8::encode_utf8(cs.take(MAX_CHUNK as int)) + string_final(
            cs.skip(MAX_CHUNK as int),
        ) && cs.skip(MAX_CHUNK as int).len() == 1,
{
    if cs.len() == MAX_CHUNK + 1 {
        assert(string_form(cs.skip(MAX_CHUNK as int)) == string_final(cs.skip(MAX_CHUNK as int)));
    }
}

/// Binary data of exactly `MAX_CHUNK` bytes is one final chunk; one byte
/// more makes one full chunk and a final chunk of one byte.
pub proof fn lemma_binary_chunk_boundary(b: Seq<u8>)
    requires
        b.len() == MAX_CHUNK || b.len() == MAX_CHUNK + 1,
    ensures
        b.len() == MAX_CHUNK ==> binary_form(b) == binary_final(b),
        b.len() == MAX_CHUNK + 1 ==> binary_form(b) == seq![0x41u8, 0x80u8, 0x00u8] + b.take(
            MAX_CHUNK as int,
        ) + binary_final(b.skip(MAX_CHUNK as int)) && b.skip(MAX_CHUNK as int).len() == 1,
{
    if b.len() == MAX_CHUNK + 1 {
        assert(binary_form(b.skip(MAX_CHUNK as int)) == binary_final(b.skip(MAX_CHUNK as int)));
    }
}

/// A list whose one item refers back to the list itself is written in
/// finitely many bytes: its short header, then a `Ref` tag and the list's
/// own index; and that index leads back to the list itself.
pub proof fn lemma_self_reference_written(items: Seq<Value>, l: List, n: nat)
    requires
        n < MAX_REFS,
        l is Untyped,
        l.items() == items,
        items == seq![Value::Ref(n as u32)],
    ensures
        value_form(Value::List(l), n) == Ok::<(Seq<u8>, nat), crate::error::ErrorKind>(
            (seq![0x79u8, TAG_REF] + int_form(n as int), n + 1),
        ),
        crate::refs::walk(Value::List(l), n, n) == crate::refs::Walk::Found(Value::List(l)),
{
    assert(items.drop_last() =~= Seq::<Value>::empty());
    let body = seq![TAG_REF] + int_form(n as int);
    assert(crate::ser::bump(n) == n + 1);
    assert(crate::ser::items_form(Seq::<Value>::empty(), n + 1) == Ok::<(Seq<u8>, nat), crate::error::ErrorKind>((Seq::<u8>::empty(), n + 1)));
    assert(value_form(Value::Ref(n as u32), n + 1) == Ok::<(Seq<u8>, nat), crate::error::ErrorKind>((body, n + 1)));
    assert(crate::ser::items_form(items, n + 1) == Ok::<(Seq<u8>, nat), crate::error::ErrorKind>((Seq::<u8>::empty() + body, n + 1)));
    assert(seq![0x79u8] + (Seq::<u8>::empty() + body) =~= seq![0x79u8, TAG_REF] + int_form(n as int));
}

} // verus!
