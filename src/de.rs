use vstd::prelude::*;

use crate::error::{Error, ErrorKind, fails_with};
use crate::refcheck::{refs_below, items_refs_below, entries_refs_below, lemma_items_mono, lemma_entries_mono, lemma_refs_below_mono, lemma_put_refs};
use crate::ser::{MAX_REFS, bump, push_range};
use crate::text::string_from_utf8;
use crate::value::{Dict, List, Model, Value, name_model, drop_key, entry_models, key_eq, keys_unique, lemma_put_model, model, model_put, models, put, same_key};
use crate::wire::{TAG_NULL, TAG_TRUE, TAG_FALSE, TAG_INT, TAG_LONG, TAG_LONG_INT, TAG_DOUBLE, TAG_DOUBLE_ZERO, TAG_DOUBLE_ONE, TAG_DOUBLE_BYTE, TAG_DOUBLE_SHORT, TAG_DOUBLE_FLOAT, TAG_DATE, TAG_DATE_MINUTE, TAG_BINARY_CHUNK, TAG_BINARY_FINAL, TAG_STRING_CHUNK, TAG_STRING_FINAL, TAG_REF, TAG_LIST_TYPED_VAR, TAG_LIST_TYPED, TAG_LIST_UNTYPED_VAR, TAG_LIST_UNTYPED, TAG_MAP_TYPED, TAG_MAP_UNTYPED, TAG_END, DOUBLE_ONE_BITS, int_width, int_of, long_width, long_of, date_width, date_of, u32_of, u64_of};
use crate::float::{double_bits_of_int, double_bits_of_float, f64_bits_of_int, f64_bits_of_f32};
use crate::wire::{signed32, signed64};

verus! {

broadcast use {vstd::std_specs::vec::group_vec_axioms, vstd::seq::group_seq_axioms};

/// The width, tag included, of a scalar: null, booleans, integers, longs,
/// dates and doubles; zero for any other tag.
pub open spec fn scalar_width(tag: u8) -> int {
    if tag == TAG_NULL || tag == TAG_TRUE || tag == TAG_FALSE || tag == TAG_DOUBLE_ZERO
        || tag == TAG_DOUBLE_ONE {
        1
    } else if tag == TAG_DOUBLE_BYTE {
        2
    } else if tag == TAG_DOUBLE_SHORT {
        3
    } else if tag == TAG_DOUBLE_FLOAT {
        5
    } else if int_width(tag) > 0 {
        int_width(tag)
    } else if long_width(tag) > 0 {
        long_width(tag)
    } else if date_width(tag) > 0 {
        date_width(tag)
    } else if tag == TAG_DOUBLE {
        9
    } else {
        0
    }
}

/// The scalar that the bytes `b` begin with, where `scalar_width(b[0]) > 0`
/// and `b` holds that many bytes.
pub open spec fn scalar_of(b: Seq<u8>) -> Value {
    let t = b[0];
    if t == TAG_NULL {
        Value::Null
    } else if t == TAG_TRUE {
        Value::Bool(true)
    } else if t == TAG_FALSE {
        Value::Bool(false)
    } else if t == TAG_DOUBLE_ZERO {
        Value::Double(0)
    } else if t == TAG_DOUBLE_ONE {
        Value::Double(DOUBLE_ONE_BITS)
    } else if t == TAG_DOUBLE_BYTE {
        Value::Double(double_bits_of_int(if b[1] >= 0x80 { b[1] - 0x100 } else { b[1] as int }) as u64)
    } else if t == TAG_DOUBLE_SHORT {
        let u = b[1] * 0x100 + b[2];
        Value::Double(double_bits_of_int(if u >= 0x8000 { u - 0x1_0000 } else { u }) as u64)
    } else if t == TAG_DOUBLE_FLOAT {
        Value::Double(double_bits_of_float(u32_of(b.subrange(1, 5)) as u32) as u64)
    } else if int_width(t) > 0 {
        Value::Int(int_of(b) as i32)
    } else if long_width(t) > 0 {
        Value::Long(long_of(b) as i64)
    } else if date_width(t) > 0 {
        Value::Date(date_of(b) as i64)
    } else {
        Value::Double(u64_of(b.subrange(1, 9)) as u64)
    }
}

/// The header of the binary chunk that `s` begins with: its width, the
/// length of its data, and whether it is the final chunk; `None` where `s`
/// does not begin with a whole chunk header.
pub open spec fn binary_header(s: Seq<u8>) -> Option<(int, int, bool)> {
    if s.len() == 0 {
        None
    } else if 0x20 <= s[0] <= 0x2f {
        Some((1, s[0] - 0x20, true))
    } else if 0x34 <= s[0] <= 0x37 {
        if s.len() < 2 {
            None
        } else {
            Some((2, (s[0] - 0x34) * 0x100 + s[1], true))
        }
    } else if s[0] == TAG_BINARY_FINAL || s[0] == TAG_BINARY_CHUNK {
        if s.len() < 3 {
            None
        } else {
            Some((3, s[1] * 0x100 + s[2], s[0] == TAG_BINARY_FINAL))
        }
    } else {
        None
    }
}

/// The binary data that `s` begins with, joined across its chunks, and the
/// number of bytes its chunks take; `None` where the chunks are cut short or
/// a tag that is no binary chunk stands where one must.
pub open spec fn parse_binary(s: Seq<u8>) -> Option<(Seq<u8>, int)>
    decreases s.len(),
{
    match binary_header(s) {
        None => None,
        Some((h, n, last)) => if s.len() < h + n {
            None
        } else if last {
            Some((s.subrange(h, h + n), h + n))
        } else if h >= 1 && n >= 0 {
            extend(s.subrange(h, h + n), h + n, parse_binary(s.skip(h + n)))
        } else {
            None
        },
    }
}

/// A parse result with `prefix` and `k` bytes put before it.
pub open spec fn extend(prefix: Seq<u8>, k: int, p: Option<(Seq<u8>, int)>) -> Option<(Seq<u8>, int)> {
    match p {
        Some((d, c)) => Some((prefix + d, k + c)),
        None => None,
    }
}

proof fn lemma_parse_binary_consumes(s: Seq<u8>)
    ensures
        parse_binary(s) matches Some((d, c)) ==> c >= 1,
    decreases s.len(),
{
    match binary_header(s) {
        Some((h, n, last)) => {
            if s.len() >= h + n && !last {
                lemma_parse_binary_consumes(s.skip(h + n));
            }
        },
        None => {},
    }
}

/// The length of the UTF-8 sequence that a lead byte begins; zero where it
/// begins none.
pub open spec fn lead_width(b: u8) -> int {
    if b < 0x80 {
        1
    } else if 0xc0 <= b <= 0xdf {
        2
    } else if 0xe0 <= b <= 0xef {
        3
    } else if 0xf0 <= b <= 0xf7 {
        4
    } else {
        0
    }
}

/// The number of bytes that `n` code points take at the start of `s`, each
/// as long as its lead byte says; `None` where a lead byte is invalid or
/// `s` ends first.
pub open spec fn utf8_span(s: Seq<u8>, n: nat) -> Option<int>
    decreases n,
{
    if n == 0 {
        Some(0)
    } else if s.len() == 0 || lead_width(s[0]) == 0 || s.len() < lead_width(s[0]) {
        None
    } else {
        shift(lead_width(s[0]), utf8_span(s.skip(lead_width(s[0])), (n - 1) as nat))
    }
}

/// A span with `k` more bytes before it.
pub open spec fn shift(k: int, p: Option<int>) -> Option<int> {
    match p {
        Some(c) => Some(k + c),
        None => None,
    }
}

/// The header of the text chunk that `s` begins with: its width, its
/// length in code points, and whether it is the final chunk.
pub open spec fn string_header(s: Seq<u8>) -> Option<(int, int, bool)> {
    if s.len() == 0 {
        None
    } else if s[0] <= 0x1f {
        Some((1, s[0] as int, true))
    } else if 0x30 <= s[0] <= 0x33 {
        if s.len() < 2 {
            None
        } else {
            Some((2, (s[0] - 0x30) * 0x100 + s[1], true))
        }
    } else if s[0] == TAG_STRING_FINAL || s[0] == TAG_STRING_CHUNK {
        if s.len() < 3 {
            None
        } else {
            Some((3, s[1] * 0x100 + s[2], s[0] == TAG_STRING_FINAL))
        }
    } else {
        None
    }
}

/// The UTF-8 bytes of the text that `s` begins with, joined across its
/// chunks, and the number of bytes its chunks take.
pub open spec fn parse_string_bytes(s: Seq<u8>) -> Option<(Seq<u8>, int)>
    decreases s.len(),
{
    match string_header(s) {
        None => None,
        Some((h, n, last)) => if s.len() < h || n < 0 {
            None
        } else {
            match utf8_span(s.skip(h), n as nat) {
                None => None,
                Some(k) => if k < 0 || s.len() < h + k {
                    None
                } else if last {
                    Some((s.subrange(h, h + k), h + k))
                } else if h >= 1 {
                    extend(s.subrange(h, h + k), h + k, parse_string_bytes(s.skip(h + k)))
                } else {
                    None
                },
            }
        },
    }
}

proof fn lemma_parse_string_consumes(s: Seq<u8>)
    ensures
        parse_string_bytes(s) matches Some((d, c)) ==> c >= 1,
    decreases s.len(),
{
    match string_header(s) {
        Some((h, n, last)) => {
            if s.len() >= h && n >= 0 {
                match utf8_span(s.skip(h), n as nat) {
                    Some(k) => {
                        if k >= 0 && s.len() >= h + k && !last && h >= 1 {
                            lemma_parse_string_consumes(s.skip(h + k));
                        }
                    },
                    None => {},
                }
            }
        },
        None => {},
    }
}

/// The text that `s` begins with and the bytes its chunks take; `None`
/// where the chunks are malformed or their bytes are not UTF-8.
pub open spec fn text_of(s: Seq<u8>) -> Option<(Seq<char>, int)> {
    match parse_string_bytes(s) {
        Some((d, c)) => if vstd::utf8::valid_utf8(d) {
            Some((vstd::utf8::decode_utf8(d), c))
        } else {
            None
        },
        None => None,
    }
}

/// The `Int` that `s` begins with and its width.
pub open spec fn int_at(s: Seq<u8>) -> Option<(int, int)> {
    if s.len() > 0 && int_width(s[0]) > 0 && int_width(s[0]) <= s.len() {
        Some((int_of(s), int_width(s[0])))
    } else {
        None
    }
}

/// A type name that `s` begins with: text, which joins the table `ts`, or
/// the index of a name already in it. The name, the bytes used, the table
/// after.
pub open spec fn parse_type(s: Seq<u8>, ts: Seq<Seq<char>>) -> Option<(Seq<char>, int, Seq<Seq<char>>)> {
    if s.len() == 0 {
        None
    } else if is_string_tag(s[0]) {
        match text_of(s) {
            Some((t, c)) => Some((t, c, ts.push(t))),
            None => None,
        }
    } else {
        match int_at(s) {
            Some((i, c)) => if 0 <= i < ts.len() {
                Some((ts[i], c, ts))
            } else {
                None
            },
            None => None,
        }
    }
}

/// What a decode yields: the content, the bytes used, the count of
/// registered values after, and the type-name table after.
pub type Parsed = Option<(Model, int, nat, Seq<Seq<char>>)>;

pub type ParsedItems = Option<(Seq<Model>, int, nat, Seq<Seq<char>>)>;

pub type ParsedEntries = Option<(Seq<(Model, Model)>, int, nat, Seq<Seq<char>>)>;

/// The value that `s` begins with, read with `n` values registered and the
/// type-name table `ts`; `None` where the bytes are not one whole value.
pub open spec fn parse_value(s: Seq<u8>, n: nat, ts: Seq<Seq<char>>) -> Parsed
    decreases s.len(), 1nat,
{
    if s.len() == 0 {
        None
    } else {
        let t = s[0];
        if scalar_width(t) > 0 {
            if scalar_width(t) <= s.len() {
                Some((model(scalar_of(s)), scalar_width(t), n, ts))
            } else {
                None
            }
        } else if is_binary_tag(t) {
            match parse_binary(s) {
                Some((d, c)) => Some((Model::Bytes(d), c, n, ts)),
                None => None,
            }
        } else if is_string_tag(t) {
            match text_of(s) {
                Some((x, c)) => Some((Model::Text(x), c, n, ts)),
                None => None,
            }
        } else if t == TAG_REF {
            match int_at(s.skip(1)) {
                Some((i, c)) => if 0 <= i < n {
                    Some((Model::Ref(i as u32), 1 + c, n, ts))
                } else {
                    None
                },
                None => None,
            }
        } else if is_list_tag(t) {
            parse_list(s, n, ts)
        } else if is_map_tag(t) {
            parse_map(s, n, ts)
        } else {
            None
        }
    }
}

/// A list: its tag, a type name where the tag says typed, a length where
/// the tag says fixed and does not hold it, then the items; registered
/// before its items are read.
pub open spec fn parse_list(s: Seq<u8>, n: nat, ts: Seq<Seq<char>>) -> Parsed
    decreases s.len(), 0nat,
{
    if s.len() == 0 {
        None
    } else {
        let t = s[0];
        let typed = t == TAG_LIST_TYPED_VAR || t == TAG_LIST_TYPED || (0x70 <= t <= 0x77);
        let head = if typed {
            parse_type(s.skip(1), ts)
        } else {
            Some((Seq::<char>::empty(), 0int, ts))
        };
        match head {
            None => None,
            Some((name, c1, ts1)) => {
                if c1 < 0 || 1 + c1 > s.len() {
                    None
                } else {
                    let body = list_body(t, s.skip(1 + c1), bump(n), ts1);
                    match body {
                        Some((items, c3, n3, ts3)) => Some((
                            if typed { Model::Typed(name, items) } else { Model::Untyped(items) },
                            1 + c1 + c3,
                            n3,
                            ts3,
                        )),
                        None => None,
                    }
                }
            },
        }
    }
}

/// The part of a list after its tag and type name: a length where the tag
/// says fixed and does not hold it, then the items.
pub open spec fn list_body(t: u8, s2: Seq<u8>, n: nat, ts1: Seq<Seq<char>>) -> ParsedItems
    decreases s2.len(), 3nat,
{
    if t == TAG_LIST_TYPED_VAR || t == TAG_LIST_UNTYPED_VAR {
        extend_items(0, parse_items_var(s2, n, ts1))
    } else if t == TAG_LIST_TYPED || t == TAG_LIST_UNTYPED {
        match int_at(s2) {
            Some((len, c2)) => if len < 0 || c2 < 0 || c2 > s2.len() {
                None
            } else {
                extend_items(c2, parse_items(s2.skip(c2), len as nat, n, ts1))
            },
            None => None,
        }
    } else if t <= 0x77 {
        parse_items(s2, (t - 0x70) as nat, n, ts1)
    } else {
        parse_items(s2, (t - 0x78) as nat, n, ts1)
    }
}

/// A parse of items with `pre` and `c` bytes put before it.
pub open spec fn prepend(pre: Seq<Model>, c: int, p: ParsedItems) -> ParsedItems {
    match p {
        Some((xs, c2, n2, ts2)) => Some((pre + xs, c + c2, n2, ts2)),
        None => None,
    }
}

/// A parse of entries with `c` more bytes before it.
pub open spec fn shift_entries(c: int, p: ParsedEntries) -> ParsedEntries {
    match p {
        Some((es, c2, n2, ts2)) => Some((es, c + c2, n2, ts2)),
        None => None,
    }
}

pub open spec fn extend_items(c: int, p: ParsedItems) -> ParsedItems {
    match p {
        Some((xs, c2, n2, ts2)) => Some((xs, c + c2, n2, ts2)),
        None => None,
    }
}

/// `k` values one after another.
pub open spec fn parse_items(s: Seq<u8>, k: nat, n: nat, ts: Seq<Seq<char>>) -> ParsedItems
    decreases s.len(), 2nat, k,
{
    if k == 0 {
        Some((Seq::empty(), 0, n, ts))
    } else {
        match parse_value(s, n, ts) {
            Some((v, c, n1, ts1)) => if 1 <= c <= s.len() {
                match parse_items(s.skip(c), (k - 1) as nat, n1, ts1) {
                    Some((rest, c2, n2, ts2)) => Some((seq![v] + rest, c + c2, n2, ts2)),
                    None => None,
                }
            } else {
                None
            },
            None => None,
        }
    }
}

/// Values one after another up to the end marker, which is read too.
pub open spec fn parse_items_var(s: Seq<u8>, n: nat, ts: Seq<Seq<char>>) -> ParsedItems
    decreases s.len(), 2nat, 0nat,
{
    if s.len() == 0 {
        None
    } else if s[0] == TAG_END {
        Some((Seq::empty(), 1, n, ts))
    } else {
        match parse_value(s, n, ts) {
            Some((v, c, n1, ts1)) => if 1 <= c <= s.len() {
                match parse_items_var(s.skip(c), n1, ts1) {
                    Some((rest, c2, n2, ts2)) => Some((seq![v] + rest, c + c2, n2, ts2)),
                    None => None,
                }
            } else {
                None
            },
            None => None,
        }
    }
}

/// A map: its tag, a type name where the tag says typed, then keys and
/// values up to the end marker, each key put into the entries read so far;
/// registered before its entries are read.
pub open spec fn parse_map(s: Seq<u8>, n: nat, ts: Seq<Seq<char>>) -> Parsed
    decreases s.len(), 0nat,
{
    if s.len() == 0 {
        None
    } else {
        let typed = s[0] == TAG_MAP_TYPED;
        let head = if typed {
            match parse_type(s.skip(1), ts) {
                Some((name, c, ts1)) => Some((Some(name), c, ts1)),
                None => None,
            }
        } else {
            Some((None, 0int, ts))
        };
        match head {
            None => None,
            Some((name, c1, ts1)) => if c1 < 0 || 1 + c1 > s.len() {
                None
            } else {
                match parse_entries(s.skip(1 + c1), bump(n), ts1, Seq::empty()) {
                    Some((es, c3, n3, ts3)) => Some((Model::Dict(name, es), 1 + c1 + c3, n3, ts3)),
                    None => None,
                }
            },
        }
    }
}

/// Keys and values up to the end marker, put one by one into `acc`.
pub open spec fn parse_entries(
    s: Seq<u8>,
    n: nat,
    ts: Seq<Seq<char>>,
    acc: Seq<(Model, Model)>,
) -> ParsedEntries
    decreases s.len(), 2nat, 0nat,
{
    if s.len() == 0 {
        None
    } else if s[0] == TAG_END {
        Some((acc, 1, n, ts))
    } else {
        match parse_value(s, n, ts) {
            Some((k, c, n1, ts1)) => if 1 <= c <= s.len() {
                match parse_value(s.skip(c), n1, ts1) {
                    Some((v, c2, n2, ts2)) => if 1 <= c2 <= s.len() - c {
                        match parse_entries(s.skip(c + c2), n2, ts2, model_put(acc, k, v)) {
                            Some((es, c3, n3, ts3)) => Some((es, c + c2 + c3, n3, ts3)),
                            None => None,
                        }
                    } else {
                        None
                    },
                    None => None,
                }
            } else {
                None
            },
            None => None,
        }
    }
}

pub open spec fn is_binary_tag(t: u8) -> bool {
    (0x20 <= t <= 0x2f) || (0x34 <= t <= 0x37) || t == TAG_BINARY_CHUNK || t == TAG_BINARY_FINAL
}

pub open spec fn is_string_tag(t: u8) -> bool {
    t <= 0x1f || (0x30 <= t <= 0x33) || t == TAG_STRING_CHUNK || t == TAG_STRING_FINAL
}

pub open spec fn is_list_tag(t: u8) -> bool {
    t == TAG_LIST_TYPED_VAR || t == TAG_LIST_TYPED || t == TAG_LIST_UNTYPED_VAR || t
        == TAG_LIST_UNTYPED || (0x70 <= t <= 0x7f)
}

pub open spec fn is_map_tag(t: u8) -> bool {
    t == TAG_MAP_TYPED || t == TAG_MAP_UNTYPED
}

/// The tags that can begin a value.
pub open spec fn known_tag(t: u8) -> bool {
    scalar_width(t) > 0 || is_binary_tag(t) || is_string_tag(t) || t == TAG_REF || is_list_tag(t) || is_map_tag(t)
}

/// Reads values from bytes, keeping the count of the lists and maps
/// registered so far and the type names seen so far.
pub struct Deserializer {
    input: Vec<u8>,
    pos: usize,
    refs: u64,
    types: Vec<String>,
}

/// The length of a UTF-8 sequence that begins with `lead`; zero where
/// `lead` cannot begin one.
fn utf8_width(lead: u8) -> (w: usize)
    ensures
        w <= 4,
        w == lead_width(lead),
{
    if lead < 0x80 {
        1
    } else if 0xc0 <= lead && lead <= 0xdf {
        2
    } else if 0xe0 <= lead && lead <= 0xef {
        3
    } else if 0xf0 <= lead && lead <= 0xf7 {
        4
    } else {
        0
    }
}

fn truncated() -> (e: Error)
    ensures
        e.kind == ErrorKind::TruncatedInput,
{
    Error::new(ErrorKind::TruncatedInput, "unexpected end of input")
}

fn malformed() -> (e: Error)
    ensures
        e.kind == ErrorKind::MalformedTag,
{
    Error::new(ErrorKind::MalformedTag, "unexpected tag")
}

fn dangling() -> (e: Error)
    ensures
        e.kind == ErrorKind::DanglingReference,
{
    Error::new(ErrorKind::DanglingReference, "reference to an unregistered value")
}

impl Deserializer {
    /// The whole input.
    pub closed spec fn bytes(&self) -> Seq<u8> {
        self.input@
    }

    /// How many bytes of the input have been read.
    pub closed spec fn position(&self) -> int {
        self.pos as int
    }

    /// The bytes not read yet.
    pub open spec fn rest(&self) -> Seq<u8> {
        self.bytes().skip(self.position())
    }

    /// The count of the lists and maps registered so far.
    pub closed spec fn registered(&self) -> nat {
        self.refs as nat
    }

    pub closed spec fn wf(&self) -> bool {
        self.pos <= self.input.len() && self.refs <= MAX_REFS
    }

    /// The type names seen so far, by index.
    pub closed spec fn type_names(&self) -> Seq<Seq<char>> {
        self.types@.map_values(|t: String| t@)
    }

    /// A reader at the start of `input`, with empty tables.
    pub fn new(input: Vec<u8>) -> (r: Deserializer)
        ensures
            r.wf(),
            r.bytes() == input@,
            r.position() == 0,
            r.registered() == 0,
            r.type_names() == Seq::<Seq<char>>::empty(),
    {
        let r = Deserializer { input, pos: 0, refs: 0, types: Vec::new() };
        assert(r.type_names() =~= Seq::<Seq<char>>::empty());
        r
    }

    fn read_byte(&mut self) -> (r: Result<u8, Error>)
        requires
            old(self).wf(),
        ensures
            final(self).wf(),
            final(self).input == old(self).input,
            final(self).refs == old(self).refs,
            final(self).types == old(self).types,
            old(self).pos < old(self).input.len() ==> r == Ok::<u8, Error>(old(self).input@[old(self).pos as int])
                && final(self).pos == old(self).pos + 1,
            old(self).pos >= old(self).input.len() ==> fails_with(r, ErrorKind::TruncatedInput)
                && final(self).pos == old(self).pos,
    {
        if self.pos < self.input.len() {
            let b = self.input[self.pos];
            self.pos = self.pos + 1;
            Ok(b)
        } else {
            Err(truncated())
        }
    }

    fn peek_byte(&self) -> (r: Option<u8>)
        requires
            self.wf(),
        ensures
            self.pos < self.input.len() ==> r == Some(self.input@[self.pos as int]),
            self.pos >= self.input.len() ==> r is None,
    {
        if self.pos < self.input.len() {
            Some(self.input[self.pos])
        } else {
            None
        }
    }

    /// Reads four bytes as an unsigned number, most significant first.
    fn read_u32(&mut self) -> (r: Result<u32, Error>)
        requires
            old(self).wf(),
        ensures
            final(self).wf(),
            final(self).input == old(self).input,
            final(self).refs == old(self).refs,
            final(self).types == old(self).types,
            old(self).pos <= final(self).pos,
            old(self).pos + 4 <= old(self).input.len() ==> (r matches Ok(u) && u as int == u32_of(
                old(self).input@.subrange(old(self).pos as int, old(self).pos + 4),
            ) && final(self).pos == old(self).pos + 4),
            old(self).pos + 4 > old(self).input.len() ==> fails_with(r, ErrorKind::TruncatedInput),
    {
        if self.input.len() - self.pos < 4 {
            return Err(truncated());
        }
        let p = self.pos;
        let u = self.input[p] as u32 * 0x100_0000 + self.input[p + 1] as u32 * 0x1_0000
            + self.input[p + 2] as u32 * 0x100 + self.input[p + 3] as u32;
        self.pos = p + 4;
        Ok(u)
    }

    /// Reads eight bytes as an unsigned number, most significant first.
    fn read_u64(&mut self) -> (r: Result<u64, Error>)
        requires
            old(self).wf(),
        ensures
            final(self).wf(),
            final(self).input == old(self).input,
            final(self).refs == old(self).refs,
            final(self).types == old(self).types,
            old(self).pos <= final(self).pos,
            old(self).pos + 8 <= old(self).input.len() ==> (r matches Ok(u) && u as int == u64_of(
                old(self).input@.subrange(old(self).pos as int, old(self).pos + 8),
            ) && final(self).pos == old(self).pos + 8),
            old(self).pos + 8 > old(self).input.len() ==> fails_with(r, ErrorKind::TruncatedInput),
    {
        if self.input.len() - self.pos < 8 {
            return Err(truncated());
        }
        let ghost b = self.input@.subrange(self.pos as int, self.pos + 8);
        let hi = self.read_u32()?;
        let lo = self.read_u32()?;
        assert(b.subrange(0, 4) =~= old(self).input@.subrange(old(self).pos as int, old(self).pos + 4));
        assert(b.subrange(4, 8) =~= old(self).input@.subrange(old(self).pos + 4, old(self).pos + 8));
        Ok(hi as u64 * 0x1_0000_0000 + lo as u64)
    }

    /// Reads the scalar at the current position, whose tag has a width.
    #[verifier::rlimit(60)]
    fn read_scalar(&mut self) -> (r: Result<Value, Error>)
        requires
            old(self).wf(),
            old(self).pos < old(self).input.len(),
            scalar_width(old(self).input@[old(self).pos as int]) > 0,
        ensures
            final(self).wf(),
            final(self).input == old(self).input,
            final(self).refs == old(self).refs,
            final(self).types == old(self).types,
            old(self).pos <= final(self).pos,
            ({
                let b = old(self).rest();
                let w = scalar_width(b[0]);
                &&& w <= b.len() ==> r == Ok::<Value, Error>(scalar_of(b)) && final(self).pos
                    == old(self).pos + w
                &&& w > b.len() ==> fails_with(r, ErrorKind::TruncatedInput)
            }),
    {
        let ghost b = self.rest();
        let p = self.pos;
        let t = self.input[p];
        let avail = self.input.len() - p;
        assert(b[0] == t);
        if t == TAG_NULL {
            self.pos = p + 1;
            return Ok(Value::Null);
        } else if t == TAG_TRUE {
            self.pos = p + 1;
            return Ok(Value::Bool(true));
        } else if t == TAG_FALSE {
            self.pos = p + 1;
            return Ok(Value::Bool(false));
        } else if t == TAG_DOUBLE_ZERO {
            self.pos = p + 1;
            return Ok(Value::Double(0));
        } else if t == TAG_DOUBLE_ONE {
            self.pos = p + 1;
            return Ok(Value::Double(DOUBLE_ONE_BITS));
        } else if t == TAG_DOUBLE_BYTE {
            if avail < 2 {
                return Err(truncated());
            }
            let b1 = self.input[p + 1];
            assert(b[1] == b1);
            let v: i32 = if b1 >= 0x80 { b1 as i32 - 0x100 } else { b1 as i32 };
            self.pos = p + 2;
            return Ok(Value::Double(f64_bits_of_int(v)));
        } else if t == TAG_DOUBLE_SHORT {
            if avail < 3 {
                return Err(truncated());
            }
            let u = self.input[p + 1] as i32 * 0x100 + self.input[p + 2] as i32;
            assert(b[1] == self.input@[p + 1] && b[2] == self.input@[p + 2]);
            let v: i32 = if u >= 0x8000 { u - 0x1_0000 } else { u };
            self.pos = p + 3;
            return Ok(Value::Double(f64_bits_of_int(v)));
        } else if t == TAG_DOUBLE_FLOAT {
            if avail < 5 {
                return Err(truncated());
            }
            self.pos = p + 1;
            let u = self.read_u32()?;
            assert(b.subrange(1, 5) =~= self.input@.subrange(p + 1, p + 5));
            return Ok(Value::Double(f64_bits_of_f32(u)));
        } else if 0x80 <= t && t <= 0xbf {
            self.pos = p + 1;
            return Ok(Value::Int(t as i32 - 0x90));
        } else if 0xc0 <= t && t <= 0xcf {
            if avail < 2 {
                return Err(truncated());
            }
            let b1 = self.input[p + 1];
            assert(b[1] == b1);
            self.pos = p + 2;
            return Ok(Value::Int((t as i32 - 0xc8) * 0x100 + b1 as i32));
        } else if 0xd0 <= t && t <= 0xd7 {
            if avail < 3 {
                return Err(truncated());
            }
            let b1 = self.input[p + 1];
            let b2 = self.input[p + 2];
            assert(b[1] == b1 && b[2] == b2);
            self.pos = p + 3;
            return Ok(Value::Int((t as i32 - 0xd4) * 0x1_0000 + b1 as i32 * 0x100 + b2 as i32));
        } else if t == TAG_INT {
            if avail < 5 {
                return Err(truncated());
            }
            self.pos = p + 1;
            let u = self.read_u32()?;
            assert(b.subrange(1, 5) =~= self.input@.subrange(p + 1, p + 5));
            let v: i64 = if u >= 0x8000_0000 { u as i64 - 0x1_0000_0000 } else { u as i64 };
            return Ok(Value::Int(v as i32));
        } else if 0xd8 <= t && t <= 0xef {
            self.pos = p + 1;
            return Ok(Value::Long(t as i64 - 0xe0));
        } else if 0xf0 <= t {
            if avail < 2 {
                return Err(truncated());
            }
            let b1 = self.input[p + 1];
            assert(b[1] == b1);
            self.pos = p + 2;
            return Ok(Value::Long((t as i64 - 0xf8) * 0x100 + b1 as i64));
        } else if 0x38 <= t && t <= 0x3f {
            if avail < 3 {
                return Err(truncated());
            }
            let b1 = self.input[p + 1];
            let b2 = self.input[p + 2];
            assert(b[1] == b1 && b[2] == b2);
            self.pos = p + 3;
            return Ok(Value::Long((t as i64 - 0x3c) * 0x1_0000 + b1 as i64 * 0x100 + b2 as i64));
        } else if t == TAG_LONG_INT || t == TAG_DATE_MINUTE {
            if avail < 5 {
                return Err(truncated());
            }
            self.pos = p + 1;
            let u = self.read_u32()?;
            assert(b.subrange(1, 5) =~= self.input@.subrange(p + 1, p + 5));
            let v: i64 = if u >= 0x8000_0000 { u as i64 - 0x1_0000_0000 } else { u as i64 };
            if t == TAG_LONG_INT {
                return Ok(Value::Long(v));
            } else {
                return Ok(Value::Date(v * 60000));
            }
        } else {
            if avail < 9 {
                return Err(truncated());
            }
            self.pos = p + 1;
            let u = self.read_u64()?;
            assert(b.subrange(1, 9) =~= self.input@.subrange(p + 1, p + 9));
            if t == TAG_DOUBLE {
                return Ok(Value::Double(u));
            }
            let v: i64 = if u >= 0x8000_0000_0000_0000 {
                (u as i128 - 0x1_0000_0000_0000_0000) as i64
            } else {
                u as i64
            };
            if t == TAG_LONG {
                return Ok(Value::Long(v));
            } else {
                return Ok(Value::Date(v));
            }
        }
    }

    /// Reads binary data in one or more chunks; the position is at its
    /// first tag.
    fn read_binary(&mut self) -> (r: Result<Vec<u8>, Error>)
        requires
            old(self).wf(),
        ensures
            final(self).wf(),
            final(self).input == old(self).input,
            final(self).refs == old(self).refs,
            final(self).types == old(self).types,
            old(self).pos <= final(self).pos,
            match parse_binary(old(self).rest()) {
                Some((d, c)) => r matches Ok(v) && v@ == d && final(self).pos == old(self).pos + c,
                None => r is Err,
            },
    {
        let mut out: Vec<u8> = Vec::new();
        loop
            invariant
                self.wf(),
                self.input == old(self).input,
                self.refs == old(self).refs,
                self.types == old(self).types,
                old(self).pos <= self.pos,
                parse_binary(old(self).rest()) == extend(
                    out@,
                    self.pos - old(self).pos,
                    parse_binary(self.rest()),
                ),
            decreases self.input.len() - self.pos,
        {
            let ghost s = self.rest();
            let ghost before = out@;
            let p = self.pos;
            let avail = self.input.len() - p;
            if avail == 0 {
                return Err(truncated());
            }
            let t = self.input[p];
            assert(s[0] == t);
            let (h, n, last): (usize, usize, bool) = if 0x20 <= t && t <= 0x2f {
                (1, (t - 0x20) as usize, true)
            } else if 0x34 <= t && t <= 0x37 {
                if avail < 2 {
                    return Err(truncated());
                }
                assert(s[1] == self.input@[p + 1]);
                (2, (t - 0x34) as usize * 0x100 + self.input[p + 1] as usize, true)
            } else if t == TAG_BINARY_FINAL || t == TAG_BINARY_CHUNK {
                if avail < 3 {
                    return Err(truncated());
                }
                assert(s[1] == self.input@[p + 1] && s[2] == self.input@[p + 2]);
                (3, self.input[p + 1] as usize * 0x100 + self.input[p + 2] as usize, t
                    == TAG_BINARY_FINAL)
            } else {
                return Err(malformed());
            };
            assert(binary_header(s) == Some((h as int, n as int, last)));
            if avail - h < n {
                return Err(truncated());
            }
            push_range(&mut out, &self.input, p + h, p + h + n);
            self.pos = p + h + n;
            assert(s.subrange(h as int, h + n) =~= self.input@.subrange(p + h, p + h + n));
            assert(s.skip(h + n) =~= self.rest());
            if last {
                assert(out@ =~= before + s.subrange(h as int, h + n));
                return Ok(out);
            }
            assert(out@ =~= before + s.subrange(h as int, h + n));
            proof {
                match parse_binary(self.rest()) {
                    Some((d, c)) => {
                        assert(before + (s.subrange(h as int, h + n) + d) =~= out@ + d);
                    },
                    None => {},
                }
            }
        }
    }

    /// Appends the next `count` bytes to `out`.
    fn read_into(&mut self, out: &mut Vec<u8>, count: usize) -> (r: Result<(), Error>)
        requires
            old(self).wf(),
        ensures
            final(self).wf(),
            final(self).input == old(self).input,
            final(self).refs == old(self).refs,
            final(self).types == old(self).types,
            old(self).pos <= final(self).pos,
            old(self).pos + count <= old(self).input.len() ==> r is Ok && final(self).pos == old(
                self,
            ).pos + count && final(out)@ == old(out)@ + old(self).input@.subrange(
                old(self).pos as int,
                old(self).pos + count,
            ),
    {
        if self.input.len() - self.pos < count {
            return Err(truncated());
        }
        let end = self.pos + count;
        push_range(out, &self.input, self.pos, end);
        self.pos = end;
        Ok(())
    }

    /// Reads the UTF-8 bytes of `n` code points into `out`, each as long as
    /// its lead byte says.
    fn read_code_points(&mut self, out: &mut Vec<u8>, n: u32) -> (r: Result<(), Error>)
        requires
            old(self).wf(),
        ensures
            final(self).wf(),
            final(self).input == old(self).input,
            final(self).refs == old(self).refs,
            final(self).types == old(self).types,
            old(self).pos <= final(self).pos,
            match utf8_span(old(self).rest(), n as nat) {
                Some(k) => r is Ok && final(self).pos == old(self).pos + k && final(out)@ == old(
                    out,
                )@ + old(self).rest().take(k),
                None => r is Err,
            },
    {
        let mut k: u32 = 0;
        while k < n
            invariant
                self.wf(),
                self.input == old(self).input,
                self.refs == old(self).refs,
                self.types == old(self).types,
                old(self).pos <= self.pos,
                k <= n,
                out@ == old(out)@ + old(self).rest().take(self.pos - old(self).pos),
                utf8_span(old(self).rest(), n as nat) == shift(
                    self.pos - old(self).pos,
                    utf8_span(self.rest(), (n - k) as nat),
                ),
            decreases n - k,
        {
            let ghost s = self.rest();
            let p = self.pos;
            if p >= self.input.len() {
                return Err(truncated());
            }
            let lead = self.input[p];
            assert(s[0] == lead);
            let w = utf8_width(lead);
            if w == 0 || self.input.len() - p < w {
                return Err(malformed());
            }
            self.read_into(out, w)?;
            assert(s.skip(w as int) =~= self.rest());
            assert(s.take(w as int) =~= self.input@.subrange(p as int, p + w));
            assert(old(self).rest().take(self.pos - old(self).pos) =~= old(self).rest().take(
                p - old(self).pos,
            ) + s.take(w as int));
            k = k + 1;
        }
        Ok(())
    }

    /// Reads text in one or more chunks, each with its length in code
    /// points; the position is at its first tag.
    fn read_string(&mut self) -> (r: Result<String, Error>)
        requires
            old(self).wf(),
        ensures
            final(self).wf(),
            final(self).input == old(self).input,
            final(self).refs == old(self).refs,
            final(self).types == old(self).types,
            old(self).pos <= final(self).pos,
            match parse_string_bytes(old(self).rest()) {
                Some((d, c)) => if vstd::utf8::valid_utf8(d) {
                    r matches Ok(t) && t@ == vstd::utf8::decode_utf8(d) && final(self).pos
                        == old(self).pos + c
                } else {
                    r is Err
                },
                None => r is Err,
            },
    {
        let mut out: Vec<u8> = Vec::new();
        loop
            invariant
                self.wf(),
                self.input == old(self).input,
                self.refs == old(self).refs,
                self.types == old(self).types,
                old(self).pos <= self.pos,
                parse_string_bytes(old(self).rest()) == extend(
                    out@,
                    self.pos - old(self).pos,
                    parse_string_bytes(self.rest()),
                ),
            decreases self.input.len() - self.pos,
        {
            let ghost s = self.rest();
            let ghost before = out@;
            let p = self.pos;
            let avail = self.input.len() - p;
            if avail == 0 {
                return Err(truncated());
            }
            let t = self.input[p];
            assert(s[0] == t);
            let (h, n, last): (usize, u32, bool) = if t <= 0x1f {
                (1, t as u32, true)
            } else if 0x30 <= t && t <= 0x33 {
                if avail < 2 {
                    return Err(truncated());
                }
                assert(s[1] == self.input@[p + 1]);
                (2, (t - 0x30) as u32 * 0x100 + self.input[p + 1] as u32, true)
            } else if t == TAG_STRING_FINAL || t == TAG_STRING_CHUNK {
                if avail < 3 {
                    return Err(truncated());
                }
                assert(s[1] == self.input@[p + 1] && s[2] == self.input@[p + 2]);
                (3, self.input[p + 1] as u32 * 0x100 + self.input[p + 2] as u32, t
                    == TAG_STRING_FINAL)
            } else {
                return Err(malformed());
            };
            assert(string_header(s) == Some((h as int, n as int, last)));
            self.pos = p + h;
            assert(s.skip(h as int) =~= self.rest());
            let ghost body = self.rest();
            self.read_code_points(&mut out, n)?;
            let ghost k = self.pos - p - h;
            assert(s.subrange(h as int, h + k) =~= body.take(k));
            assert(s.skip(h + k) =~= self.rest());
            assert(out@ =~= before + s.subrange(h as int, h + k));
            if last {
                return match string_from_utf8(out) {
                    Some(t) => Ok(t),
                    None => Err(malformed()),
                };
            }
            proof {
                match parse_string_bytes(self.rest()) {
                    Some((d, c)) => {
                        assert(before + (s.subrange(h as int, h + k) + d) =~= out@ + d);
                    },
                    None => {},
                }
            }
        }
    }

    /// Reads an `Int` in any of its forms.
    fn read_int(&mut self) -> (r: Result<i32, Error>)
        requires
            old(self).wf(),
        ensures
            final(self).wf(),
            final(self).input == old(self).input,
            final(self).refs == old(self).refs,
            final(self).types == old(self).types,
            old(self).pos <= final(self).pos,
            r is Ok ==> old(self).pos < final(self).pos,
            ({
                let b = old(self).rest();
                &&& b.len() == 0 ==> fails_with(r, ErrorKind::TruncatedInput)
                &&& b.len() > 0 && int_width(b[0]) > 0 && int_width(b[0]) <= b.len()
                    ==> r == Ok::<i32, Error>(int_of(b) as i32)
                &&& b.len() > 0 && int_width(b[0]) == 0 ==> fails_with(r, ErrorKind::MalformedTag)
                &&& b.len() > 0 && int_width(b[0]) > b.len() ==> r is Err
                &&& r matches Ok(i) ==> int_at(b) == Some((i as int, final(self).pos - old(self).pos))
            }),
    {
        match self.peek_byte() {
            None => Err(truncated()),
            Some(t) => {
                if 0x80 <= t && t <= 0xd7 || t == TAG_INT {
                    match self.read_scalar() {
                        Ok(Value::Int(i)) => Ok(i),
                        Ok(_) => Err(malformed()),
                        Err(e) => Err(e),
                    }
                } else {
                    Err(malformed())
                }
            },
        }
    }

    /// Reads a type name, or a reference to one seen before in this input.
    fn read_type(&mut self) -> (r: Result<String, Error>)
        requires
            old(self).wf(),
        ensures
            final(self).wf(),
            final(self).input == old(self).input,
            final(self).refs == old(self).refs,
            old(self).pos <= final(self).pos,
            match parse_type(old(self).rest(), old(self).type_names()) {
                Some((t, c, ts)) => r matches Ok(x) && x@ == t && final(self).pos == old(self).pos + c
                    && final(self).type_names() == ts,
                None => r is Err,
            },
    {
        match self.peek_byte() {
            None => Err(truncated()),
            Some(t) => {
                if t <= 0x1f || (0x30 <= t && t <= 0x33) || t == TAG_STRING_CHUNK || t
                    == TAG_STRING_FINAL {
                    let s = self.read_string()?;
                    let ghost before = self.types@;
                    self.types.push(s.clone());
                    assert(self.types@.map_values(|t: String| t@) =~= before.map_values(
                        |t: String| t@,
                    ).push(s@));
                    Ok(s)
                } else {
                    let i = self.read_int()?;
                    if 0 <= i && (i as usize) < self.types.len() {
                        assert(self.type_names()[i as int] == self.types@[i as int]@);
                        Ok(self.types[i as usize].clone())
                    } else {
                        Err(dangling())
                    }
                }
            },
        }
    }

    /// Reads one value: its tag decides its kind and its form. Lists and
    /// maps are registered as their opening tag is read, before their
    /// contents; a `Ref` is checked against the values registered so far.
    pub fn read_value(&mut self) -> (r: Result<Value, Error>)
        requires
            old(self).wf(),
        ensures
            final(self).wf(),
            final(self).bytes() == old(self).bytes(),
            old(self).position() <= final(self).position(),
            r is Ok ==> old(self).position() < final(self).position(),
            old(self).registered() <= final(self).registered(),
            r matches Ok(v) ==> refs_below(v, final(self).registered()),
            match parse_value(old(self).rest(), old(self).registered(), old(self).type_names()) {
                Some((m, c, n, ts)) => r matches Ok(v) && model(v) == m && final(self).position()
                    == old(self).position() + c && final(self).registered() == n
                    && final(self).type_names() == ts,
                None => r is Err,
            },
            old(self).rest().len() == 0 ==> fails_with(r, ErrorKind::TruncatedInput),
            old(self).rest().len() > 0 ==> ({
                let b = old(self).rest();
                let t = b[0];
                let w = scalar_width(t);
                &&& w > 0 && w <= b.len() ==> r == Ok::<Value, Error>(scalar_of(b))
                    && final(self).position() == old(self).position() + w
                &&& w > b.len() ==> fails_with(r, ErrorKind::TruncatedInput)
                &&& !known_tag(t) ==> fails_with(r, ErrorKind::MalformedTag)
                &&& t == TAG_REF && b.len() > 1 && int_width(b[1]) > 0 && 1 + int_width(b[1])
                    <= b.len() ==> ({
                    let i = int_of(b.skip(1));
                    if 0 <= i < old(self).registered() {
                        r == Ok::<Value, Error>(Value::Ref(i as u32))
                    } else {
                        fails_with(r, ErrorKind::DanglingReference)
                    }
                })
                &&& t == TAG_REF && r is Ok ==> (r->Ok_0 matches Value::Ref(i) && (i as nat)
                    < old(self).registered())
                &&& is_binary_tag(t) ==> match parse_binary(b) {
                    Some((d, c)) => r matches Ok(Value::Bytes(v)) && v@ == d && final(self).position()
                        == old(self).position() + c,
                    None => r is Err,
                }
                &&& is_string_tag(t) ==> match parse_string_bytes(b) {
                    Some((d, c)) => if vstd::utf8::valid_utf8(d) {
                        r matches Ok(Value::String(v)) && v@ == vstd::utf8::decode_utf8(d)
                            && final(self).position() == old(self).position() + c
                    } else {
                        r is Err
                    },
                    None => r is Err,
                }
                &&& is_list_tag(t) && r is Ok ==> r->Ok_0 is List
                &&& is_map_tag(t) && r is Ok ==> (r->Ok_0 matches Value::Dict(d) && d.wf())
            }),
        decreases old(self).bytes().len() - old(self).position(), 1nat,
    {
        let t = match self.peek_byte() {
            None => {
                return Err(truncated());
            },
            Some(t) => t,
        };
        let ghost b = self.rest();
        assert(b[0] == t);
        if t == TAG_NULL || t == TAG_TRUE || t == TAG_FALSE || t == TAG_DOUBLE_ZERO || t
            == TAG_DOUBLE_ONE || t == TAG_DOUBLE_BYTE || t == TAG_DOUBLE_SHORT || t
            == TAG_DOUBLE_FLOAT || t == TAG_DOUBLE || t == TAG_INT || t == TAG_LONG || t
            == TAG_LONG_INT || t == TAG_DATE || t == TAG_DATE_MINUTE || 0x80 <= t || (0x38 <= t
            && t <= 0x3f) {
            self.read_scalar()
        } else if (0x20 <= t && t <= 0x2f) || (0x34 <= t && t <= 0x37) || t == TAG_BINARY_CHUNK
            || t == TAG_BINARY_FINAL {
            proof {
                lemma_parse_binary_consumes(b);
            }
            let v = self.read_binary()?;
            Ok(Value::Bytes(v))
        } else if t <= 0x1f || (0x30 <= t && t <= 0x33) || t == TAG_STRING_CHUNK || t
            == TAG_STRING_FINAL {
            proof {
                lemma_parse_string_consumes(b);
            }
            let v = self.read_string()?;
            Ok(Value::String(v))
        } else if t == TAG_REF {
            self.pos = self.pos + 1;
            assert(self.rest() =~= b.skip(1));
            let i = self.read_int()?;
            if 0 <= i && (i as u64) < self.refs {
                Ok(Value::Ref(i as u32))
            } else {
                Err(dangling())
            }
        } else if t == TAG_LIST_TYPED_VAR || t == TAG_LIST_TYPED || t == TAG_LIST_UNTYPED_VAR
            || t == TAG_LIST_UNTYPED || (0x70 <= t && t <= 0x7f) {
            self.read_list()
        } else if t == TAG_MAP_TYPED || t == TAG_MAP_UNTYPED {
            self.read_map()
        } else {
            Err(malformed())
        }
    }

    fn register(&mut self)
        requires
            old(self).wf(),
        ensures
            final(self).wf(),
            final(self).input == old(self).input,
            final(self).pos == old(self).pos,
            final(self).refs as nat == bump(old(self).refs as nat),
            final(self).types == old(self).types,
    {
        if self.refs < MAX_REFS {
            self.refs = self.refs + 1;
        }
    }

    /// Reads a list; the position is at its tag.
    #[verifier::rlimit(100)]
    #[verifier::spinoff_prover]
    fn read_list(&mut self) -> (r: Result<Value, Error>)
        requires
            old(self).wf(),
            old(self).pos < old(self).input.len(),
            is_list_tag(old(self).input@[old(self).pos as int]),
        ensures
            final(self).wf(),
            final(self).input@ == old(self).input@,
            old(self).pos < final(self).pos,
            old(self).refs <= final(self).refs,
            r is Ok ==> r->Ok_0 is List,
            r matches Ok(v) ==> refs_below(v, final(self).refs as nat),
            match parse_list(old(self).rest(), old(self).refs as nat, old(self).type_names()) {
                Some((m, c, n, ts)) => r matches Ok(v) && model(v) == m && final(self).pos
                    == old(self).pos + c && final(self).refs == n && final(self).type_names() == ts,
                None => r is Err,
            },
        decreases old(self).bytes().len() - old(self).position(), 0nat,
    {
        let ghost s = self.rest();
        let ghost p0 = self.pos as int;
        let t = self.input[self.pos];
        assert(s[0] == t);
        self.pos = self.pos + 1;
        assert(self.rest() =~= s.skip(1));
        let typed = t == TAG_LIST_TYPED_VAR || t == TAG_LIST_TYPED || (0x70 <= t && t <= 0x77);
        let ghost ts0 = self.type_names();
        let name = if typed {
            Some(self.read_type()?)
        } else {
            None
        };
        let ghost c1 = self.pos - p0 - 1;
        let ghost ts1 = self.type_names();
        let ghost nm: Seq<char> = match &name {
            Some(x) => x@,
            None => Seq::empty(),
        };
        assert((if typed {
            parse_type(s.skip(1), ts0)
        } else {
            Some((Seq::<char>::empty(), 0int, ts0))
        }) == Some((nm, c1, ts1)));
        assert(self.rest() =~= s.skip(1 + c1));
        let ghost s2 = self.rest();
        let ghost p2 = self.pos as int;
        let ghost body = list_body(t, s2, bump(self.refs as nat), ts1);
        let items = if t == TAG_LIST_TYPED_VAR || t == TAG_LIST_UNTYPED_VAR {
            self.register();
            let r = self.read_items_var();
            assert(body == extend_items(0, parse_items_var(s2, bump(old(self).refs as nat), ts1)));
            let items = r?;
            assert(body matches Some((ms, c3, n3, ts3)) && ms == models(items@) && self.pos == p2 + c3
                && self.refs == n3 && self.type_names() == ts3);
            items
        } else if t == TAG_LIST_TYPED || t == TAG_LIST_UNTYPED {
            let len = self.read_int()?;
            if len < 0 {
                return Err(malformed());
            }
            let ghost c2 = self.pos - p2;
            assert(int_at(s2) == Some((len as int, c2)));
            assert(self.rest() =~= s2.skip(c2));
            self.register();
            let r = self.read_items(len);
            assert(body == extend_items(c2, parse_items(s2.skip(c2), len as nat, bump(old(self).refs as nat), ts1)));
            let items = r?;
            assert(body matches Some((ms, c3, n3, ts3)) && ms == models(items@) && self.pos == p2 + c3
                && self.refs == n3 && self.type_names() == ts3);
            items
        } else {
            let len: i32 = if t <= 0x77 { (t - 0x70) as i32 } else { (t - 0x78) as i32 };
            self.register();
            let r = self.read_items(len);
            assert(s2.skip(0) =~= s2);
            assert(body == parse_items(s2, len as nat, bump(old(self).refs as nat), ts1));
            let items = r?;
            assert(body matches Some((ms, c3, n3, ts3)) && ms == models(items@) && self.pos == p2 + c3
                && self.refs == n3 && self.type_names() == ts3);
            items
        };
        match name {
            Some(n) => Ok(Value::List(List::Typed(n, items))),
            None => Ok(Value::List(List::Untyped(items))),
        }
    }

    /// Reads `len` values one after another.
    fn read_items(&mut self, len: i32) -> (r: Result<Vec<Value>, Error>)
        requires
            old(self).wf(),
            len >= 0,
        ensures
            final(self).wf(),
            final(self).input@ == old(self).input@,
            old(self).pos <= final(self).pos,
            old(self).refs <= final(self).refs,
            r matches Ok(v) ==> items_refs_below(v@, final(self).refs as nat),
            match parse_items(old(self).rest(), len as nat, old(self).refs as nat, old(self).type_names()) {
                Some((ms, c, n, ts)) => r matches Ok(v) && models(v@) == ms && final(self).pos
                    == old(self).pos + c && final(self).refs == n && final(self).type_names() == ts,
                None => r is Err,
            },
        decreases old(self).bytes().len() - old(self).position(), 2nat,
    {
        let mut items: Vec<Value> = Vec::new();
        let mut i: i32 = 0;
        while i < len
            invariant
                self.wf(),
                self.input@ == old(self).input@,
                old(self).pos <= self.pos,
                old(self).refs <= self.refs,
                0 <= i <= len,
                items_refs_below(items@, self.refs as nat),
                parse_items(old(self).rest(), len as nat, old(self).refs as nat, old(self).type_names())
                    == prepend(models(items@), self.pos - old(self).pos, parse_items(
                    self.rest(),
                    (len - i) as nat,
                    self.refs as nat,
                    self.type_names(),
                )),
            decreases len - i,
        {
            let ghost rest = self.rest();
            let ghost p = self.pos as int;
            let ghost before = self.refs as nat;
            let ghost pre = models(items@);
            let v = self.read_value()?;
            proof {
                lemma_items_mono(items@, before, self.refs as nat);
                assert(self.rest() =~= rest.skip(self.pos - p));
            }
            let ghost prev = items@;
            items.push(v);
            assert(items@.drop_last() =~= prev);
            assert(models(items@) == pre.push(model(v)));
            proof {
                match parse_items(self.rest(), (len - i - 1) as nat, self.refs as nat, self.type_names()) {
                    Some((xs, c2, n2, ts2)) => {
                        assert(pre + (seq![model(v)] + xs) =~= pre.push(model(v)) + xs);
                    },
                    None => {},
                }
            }
            i = i + 1;
        }
        proof {
            assert(models(items@) + Seq::<Model>::empty() =~= models(items@));
        }
        Ok(items)
    }

    /// Reads values up to the end marker, which it reads too.
    fn read_items_var(&mut self) -> (r: Result<Vec<Value>, Error>)
        requires
            old(self).wf(),
        ensures
            final(self).wf(),
            final(self).input@ == old(self).input@,
            old(self).pos <= final(self).pos,
            old(self).refs <= final(self).refs,
            r matches Ok(v) ==> items_refs_below(v@, final(self).refs as nat),
            match parse_items_var(old(self).rest(), old(self).refs as nat, old(self).type_names()) {
                Some((ms, c, n, ts)) => r matches Ok(v) && models(v@) == ms && final(self).pos
                    == old(self).pos + c && final(self).refs == n && final(self).type_names() == ts,
                None => r is Err,
            },
        decreases old(self).bytes().len() - old(self).position(), 2nat,
    {
        let mut items: Vec<Value> = Vec::new();
        loop
            invariant
                self.wf(),
                self.input@ == old(self).input@,
                old(self).pos <= self.pos,
                old(self).refs <= self.refs,
                items_refs_below(items@, self.refs as nat),
                parse_items_var(old(self).rest(), old(self).refs as nat, old(self).type_names())
                    == prepend(models(items@), self.pos - old(self).pos, parse_items_var(
                    self.rest(),
                    self.refs as nat,
                    self.type_names(),
                )),
            decreases self.input.len() - self.pos,
        {
            let ghost rest = self.rest();
            match self.peek_byte() {
                None => {
                    return Err(truncated());
                },
                Some(c) => {
                    if c == TAG_END {
                        assert(rest[0] == TAG_END);
                        self.pos = self.pos + 1;
                        assert(models(items@) + Seq::<Model>::empty() =~= models(items@));
                        return Ok(items);
                    }
                    assert(rest[0] == c);
                },
            }
            let ghost p = self.pos as int;
            let ghost before = self.refs as nat;
            let ghost pre = models(items@);
            let v = self.read_value()?;
            proof {
                lemma_items_mono(items@, before, self.refs as nat);
                assert(self.rest() =~= rest.skip(self.pos - p));
            }
            let ghost prev = items@;
            items.push(v);
            assert(items@.drop_last() =~= prev);
            assert(models(items@) == pre.push(model(v)));
            proof {
                match parse_items_var(self.rest(), self.refs as nat, self.type_names()) {
                    Some((xs, c2, n2, ts2)) => {
                        assert(pre + (seq![model(v)] + xs) =~= pre.push(model(v)) + xs);
                    },
                    None => {},
                }
            }
        }
    }

    /// Reads keys and values up to the end marker, which it reads too,
    /// putting each into `entries`.
    fn read_entries(&mut self) -> (r: Result<Vec<(Value, Value)>, Error>)
        requires
            old(self).wf(),
        ensures
            final(self).wf(),
            final(self).input@ == old(self).input@,
            old(self).pos <= final(self).pos,
            old(self).refs <= final(self).refs,
            r matches Ok(v) ==> keys_unique(v@) && entries_refs_below(v@, final(self).refs as nat),
            match parse_entries(old(self).rest(), old(self).refs as nat, old(self).type_names(), Seq::empty()) {
                Some((es, c, n, ts)) => r matches Ok(v) && entry_models(v@) == es && final(self).pos
                    == old(self).pos + c && final(self).refs == n && final(self).type_names() == ts,
                None => r is Err,
            },
        decreases old(self).bytes().len() - old(self).position(), 2nat,
    {
        let mut entries: Vec<(Value, Value)> = Vec::new();
        assert(entry_models(entries@) =~= Seq::<(Model, Model)>::empty());
        loop
            invariant
                self.wf(),
                self.input@ == old(self).input@,
                old(self).pos <= self.pos,
                old(self).refs <= self.refs,
                keys_unique(entries@),
                entries_refs_below(entries@, self.refs as nat),
                parse_entries(old(self).rest(), old(self).refs as nat, old(self).type_names(), Seq::empty())
                    == shift_entries(self.pos - old(self).pos, parse_entries(
                    self.rest(),
                    self.refs as nat,
                    self.type_names(),
                    entry_models(entries@),
                )),
            decreases self.input.len() - self.pos,
        {
            let ghost rest = self.rest();
            match self.peek_byte() {
                None => {
                    return Err(truncated());
                },
                Some(c) => {
                    if c == TAG_END {
                        assert(rest[0] == TAG_END);
                        self.pos = self.pos + 1;
                        return Ok(entries);
                    }
                    assert(rest[0] == c);
                },
            }
            let ghost p = self.pos as int;
            let ghost r0 = self.refs as nat;
            let ghost em = entry_models(entries@);
            let k = self.read_value()?;
            let ghost r1 = self.refs as nat;
            let ghost pk = self.pos as int;
            assert(self.rest() =~= rest.skip(pk - p));
            let v = self.read_value()?;
            assert(rest.skip(pk - p).skip(self.pos - pk) =~= rest.skip(self.pos - p));
            assert(self.rest() =~= rest.skip(self.pos - p));
            proof {
                lemma_entries_mono(entries@, r0, self.refs as nat);
                lemma_refs_below_mono(k, r1, self.refs as nat);
                lemma_put_refs(entries@, k, v, self.refs as nat);
                lemma_put_model(entries@, k, v);
            }
            insert_entry(&mut entries, k, v);
            assert(entry_models(entries@) == model_put(em, model(k), model(v)));
        }
    }

    /// Reads a map; the position is at its tag. A key read again replaces
    /// the entry it already has.
    #[verifier::rlimit(100)]
    #[verifier::spinoff_prover]
    fn read_map(&mut self) -> (r: Result<Value, Error>)
        requires
            old(self).wf(),
            old(self).pos < old(self).input.len(),
            is_map_tag(old(self).input@[old(self).pos as int]),
        ensures
            final(self).wf(),
            final(self).input@ == old(self).input@,
            old(self).pos < final(self).pos,
            old(self).refs <= final(self).refs,
            r is Ok ==> (r->Ok_0 matches Value::Dict(d) && d.wf()),
            r matches Ok(v) ==> refs_below(v, final(self).refs as nat),
            match parse_map(old(self).rest(), old(self).refs as nat, old(self).type_names()) {
                Some((m, c, n, ts)) => r matches Ok(v) && model(v) == m && final(self).pos
                    == old(self).pos + c && final(self).refs == n && final(self).type_names() == ts,
                None => r is Err,
            },
        decreases old(self).bytes().len() - old(self).position(), 0nat,
    {
        let ghost s = self.rest();
        let ghost p0 = self.pos as int;
        let t = self.input[self.pos];
        assert(s[0] == t);
        self.pos = self.pos + 1;
        assert(self.rest() =~= s.skip(1));
        let ghost ts0 = self.type_names();
        let ghost n0 = self.refs as nat;
        let name = if t == TAG_MAP_TYPED {
            Some(self.read_type()?)
        } else {
            None
        };
        let ghost c1 = self.pos - p0 - 1;
        let ghost ts1 = self.type_names();
        assert(self.rest() =~= s.skip(1 + c1));
        assert((if t == TAG_MAP_TYPED {
            match parse_type(s.skip(1), ts0) {
                Some((nm, c, tsx)) => Some((Some(nm), c, tsx)),
                None => None,
            }
        } else {
            Some((None, 0int, ts0))
        }) == Some((name_model(name), c1, ts1)));
        self.register();
        assert(entry_models(Seq::<(Value, Value)>::empty()) == Seq::<(Model, Model)>::empty());
        let r = self.read_entries();
        assert(parse_entries(s.skip(1 + c1), bump(n0), ts1, Seq::empty()) == parse_entries(
            s.skip(1 + c1), bump(n0), ts1, Seq::empty()));
        let entries = r?;
        Ok(Value::Dict(Dict { name, entries }))
    }
}

/// Puts an entry into a map: every entry whose key is the same as `k` is
/// taken out, and the new entry is appended, so the last write wins.
pub fn insert_entry(entries: &mut Vec<(Value, Value)>, k: Value, v: Value)
    requires
        keys_unique(old(entries)@),
    ensures
        keys_unique(final(entries)@),
        final(entries)@ == put(old(entries)@, k, v),
{
    let mut rest: Vec<(Value, Value)> = Vec::new();
    std::mem::swap(entries, &mut rest);
    let ghost orig = rest@;
    let n = rest.len();
    let mut i: usize = 0;
    assert(orig.skip(0) =~= orig);
    assert(orig.take(0) =~= Seq::<(Value, Value)>::empty());
    while i < n
        invariant
            i <= n == orig.len(),
            keys_unique(orig),
            rest@ == orig.skip(i as int),
            entries@ == drop_key(orig.take(i as int), k),
            keys_unique(entries@),
            forall|a: int| 0 <= a < entries@.len() ==> !same_key(#[trigger] entries@[a].0, k),
            forall|a: int, j: int|
                0 <= a < entries@.len() && i <= j < n ==> !same_key(
                    #[trigger] entries@[a].0,
                    #[trigger] orig[j].0,
                ),
        decreases n - i,
    {
        let e = rest.remove(0);
        assert(e == orig[i as int]);
        assert(orig.take(i + 1).drop_last() =~= orig.take(i as int));
        assert(orig.take(i + 1).last() == e);
        assert(rest@ =~= orig.skip(i + 1));
        if !key_eq(&e.0, &k) {
            let ghost before = entries@;
            entries.push(e);
            assert(entries@ =~= before.push(orig[i as int]));
            assert forall|a: int, j: int|
                0 <= a < entries@.len() && i + 1 <= j < n implies !same_key(
                    #[trigger] entries@[a].0,
                    #[trigger] orig[j].0,
                ) by {
                if a < before.len() {
                    assert(entries@[a] == before[a]);
                } else {
                    assert(entries@[a] == orig[i as int]);
                }
            }
            assert(keys_unique(entries@)) by {
                assert forall|a: int, c: int| 0 <= a < c < entries@.len() implies !same_key(
                    entries@[a].0,
                    entries@[c].0,
                ) by {
                    if c < before.len() {
                        assert(entries@[a] == before[a] && entries@[c] == before[c]);
                    } else {
                        assert(entries@[a] == before[a]);
                        assert(entries@[c] == orig[i as int]);
                        assert(!same_key(before[a].0, orig[i as int].0));
                    }
                }
            }
            assert forall|a: int| 0 <= a < entries@.len() implies !same_key(
                #[trigger] entries@[a].0,
                k,
            ) by {
                if a < before.len() {
                    assert(entries@[a] == before[a]);
                }
            }
        }
        i = i + 1;
    }
    assert(orig.take(n as int) =~= orig);
    let ghost before = entries@;
    entries.push((k, v));
    assert(keys_unique(entries@)) by {
        assert forall|a: int, c: int| 0 <= a < c < entries@.len() implies !same_key(
            entries@[a].0,
            entries@[c].0,
        ) by {
            if c < before.len() {
                assert(entries@[a] == before[a] && entries@[c] == before[c]);
            } else {
                assert(entries@[a] == before[a]);
            }
        }
    }
}

/// Decodes the one value that `input` begins with, with fresh tables.
pub fn from_bytes(input: Vec<u8>) -> (r: Result<Value, Error>)
    ensures
        match parse_value(input@, 0, Seq::empty()) {
            Some((m, _, _, _)) => r matches Ok(v) && model(v) == m,
            None => r is Err,
        },
        input@.len() == 0 ==> fails_with(r, ErrorKind::TruncatedInput),
        input@.len() > 0 && 0 < scalar_width(input@[0]) <= input@.len() ==> r == Ok::<Value, Error>(
            scalar_of(input@),
        ),
        input@.len() > 0 && !known_tag(input@[0]) ==> fails_with(r, ErrorKind::MalformedTag),
        input@.len() > 0 && input@[0] == TAG_REF ==> r is Err,
        input@.len() > 1 && input@[0] == TAG_REF && int_width(input@[1]) > 0 && 1 + int_width(
            input@[1],
        ) <= input@.len() ==> fails_with(r, ErrorKind::DanglingReference),
        input@.len() > 0 && is_binary_tag(input@[0]) ==> match parse_binary(input@) {
            Some((d, _)) => r matches Ok(Value::Bytes(v)) && v@ == d,
            None => r is Err,
        },
        input@.len() > 0 && is_string_tag(input@[0]) ==> match parse_string_bytes(input@) {
            Some((d, _)) => if vstd::utf8::valid_utf8(d) {
                r matches Ok(Value::String(v)) && v@ == vstd::utf8::decode_utf8(d)
            } else {
                r is Err
            },
            None => r is Err,
        },
{
    let mut d = Deserializer::new(input);
    proof {
        assert(d.rest() =~= input@);
    }
    d.read_value()
}

} // verus!
