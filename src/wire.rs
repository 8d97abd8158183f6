use vstd::prelude::*;

use crate::float::{double_bits_of_float, double_bits_of_int, f64_bits_of_f32, f64_bits_of_int, pow2_exec};

verus! {

pub const TAG_NULL: u8 = 0x4e;
pub const TAG_TRUE: u8 = 0x54;
pub const TAG_FALSE: u8 = 0x46;
pub const TAG_INT: u8 = 0x49;
pub const TAG_LONG: u8 = 0x4c;
pub const TAG_LONG_INT: u8 = 0x59;
pub const TAG_DOUBLE: u8 = 0x44;
pub const TAG_DOUBLE_ZERO: u8 = 0x5b;
pub const TAG_DOUBLE_ONE: u8 = 0x5c;
pub const TAG_DOUBLE_BYTE: u8 = 0x5d;
pub const TAG_DOUBLE_SHORT: u8 = 0x5e;
pub const TAG_DOUBLE_FLOAT: u8 = 0x5f;
pub const TAG_DATE: u8 = 0x4a;
pub const TAG_DATE_MINUTE: u8 = 0x4b;
pub const TAG_BINARY_CHUNK: u8 = 0x41;
pub const TAG_BINARY_FINAL: u8 = 0x42;
pub const TAG_STRING_CHUNK: u8 = 0x52;
pub const TAG_STRING_FINAL: u8 = 0x53;
pub const TAG_REF: u8 = 0x51;
pub const TAG_LIST_TYPED_VAR: u8 = 0x55;
pub const TAG_LIST_TYPED: u8 = 0x56;
pub const TAG_LIST_UNTYPED_VAR: u8 = 0x57;
pub const TAG_LIST_UNTYPED: u8 = 0x58;
pub const TAG_MAP_TYPED: u8 = 0x4d;
pub const TAG_MAP_UNTYPED: u8 = 0x48;
pub const TAG_END: u8 = 0x5a;

/// The largest number of code points (for text) or bytes (for binary data)
/// that one chunk carries.
pub const MAX_CHUNK: usize = 0x8000;

pub const MINUTE_MS: i64 = 60000;

/// The four bytes of `u` (taken modulo 2^32), most significant first.
pub open spec fn be4(u: int) -> Seq<u8> {
    let w = u % 0x1_0000_0000;
    seq![
        (w / 0x100_0000) as u8,
        ((w / 0x1_0000) % 0x100) as u8,
        ((w / 0x100) % 0x100) as u8,
        (w % 0x100) as u8,
    ]
}

/// The eight bytes of `u` (taken modulo 2^64), most significant first.
pub open spec fn be8(u: int) -> Seq<u8> {
    let w = u % 0x1_0000_0000_0000_0000;
    be4(w / 0x1_0000_0000) + be4(w % 0x1_0000_0000)
}

/// The unsigned number that four bytes spell, most significant first.
pub open spec fn u32_of(b: Seq<u8>) -> int {
    b[0] as int * 0x100_0000 + b[1] as int * 0x1_0000 + b[2] as int * 0x100 + b[3] as int
}

/// The unsigned number that eight bytes spell, most significant first.
pub open spec fn u64_of(b: Seq<u8>) -> int {
    u32_of(b.subrange(0, 4)) * 0x1_0000_0000 + u32_of(b.subrange(4, 8))
}

/// A 32-bit two's complement reading of an unsigned number.
pub open spec fn signed32(u: int) -> int {
    if u >= 0x8000_0000 { u - 0x1_0000_0000 } else { u }
}

/// A 64-bit two's complement reading of an unsigned number.
pub open spec fn signed64(u: int) -> int {
    if u >= 0x8000_0000_0000_0000 { u - 0x1_0000_0000_0000_0000 } else { u }
}

pub open spec fn in_i32(v: int) -> bool {
    -0x8000_0000 <= v < 0x8000_0000
}

/// A two-byte compact form: the tag `base + w / 256`, then the low byte of `w`.
pub open spec fn form2(base: int, w: int) -> Seq<u8> {
    seq![(base + w / 0x100) as u8, (w % 0x100) as u8]
}

/// A three-byte compact form: the tag `base + w / 65536`, then the two low
/// bytes of `w`.
pub open spec fn form3(base: int, w: int) -> Seq<u8> {
    seq![(base + w / 0x1_0000) as u8, ((w / 0x100) % 0x100) as u8, (w % 0x100) as u8]
}

/// The encoding of an `Int`: the shortest of the single-byte, two-byte,
/// three-byte and full forms whose range holds `v`.
pub open spec fn int_form(v: int) -> Seq<u8> {
    if -16 <= v <= 47 {
        seq![(v + 0x90) as u8]
    } else if -2048 <= v <= 2047 {
        form2(0xc0, v + 2048)
    } else if -262144 <= v <= 262143 {
        form3(0xd0, v + 262144)
    } else {
        seq![TAG_INT] + be4(v)
    }
}

/// The encoding of a `Long`: the shortest of the single-byte, two-byte,
/// three-byte, 32-bit and full forms whose range holds `v`.
pub open spec fn long_form(v: int) -> Seq<u8> {
    if -8 <= v <= 15 {
        seq![(v + 0xe0) as u8]
    } else if -2048 <= v <= 2047 {
        form2(0xf0, v + 2048)
    } else if -262144 <= v <= 262143 {
        form3(0x38, v + 262144)
    } else if in_i32(v) {
        seq![TAG_LONG_INT] + be4(v)
    } else {
        seq![TAG_LONG] + be8(v)
    }
}

/// The encoding of a `Date`: whole minutes that fit in 32 bits take the
/// compact minute form, any other instant the full millisecond form.
pub open spec fn date_form(ms: int) -> Seq<u8> {
    if ms % 60000 == 0 && in_i32(ms / 60000) {
        seq![TAG_DATE_MINUTE] + be4(ms / 60000)
    } else {
        seq![TAG_DATE] + be8(ms)
    }
}

/// The bit pattern of the double 1.0.
pub const DOUBLE_ONE_BITS: u64 = 0x3ff0_0000_0000_0000;

/// The whole number that a double's bits stand for where its exponent puts
/// it at most 2^15 in magnitude and the bits below the binary point are
/// dropped; `0x1_0000` where it is out of that range.
pub open spec fn int_candidate(bits: u64) -> int {
    let ex = ((bits / 0x10_0000_0000_0000) % 0x800) as int;
    let mant = (bits % 0x10_0000_0000_0000) as int;
    if 1023 <= ex <= 1038 {
        let mag = (0x10_0000_0000_0000 + mant) / (vstd::arithmetic::power2::pow2((1075 - ex) as nat) as int);
        if mag > 0x8000 {
            0x1_0000
        } else if bits >= 0x8000_0000_0000_0000 {
            -mag
        } else {
            mag as int
        }
    } else {
        0x1_0000
    }
}

/// The single-precision bits with a double's sign, its exponent rebiased
/// and the top of its fraction, where its exponent lies in the normal range
/// of single precision; zero elsewhere.
pub open spec fn float_candidate(bits: u64) -> u32 {
    let ex = ((bits / 0x10_0000_0000_0000) % 0x800) as int;
    let mant = (bits % 0x10_0000_0000_0000) as int;
    let sign = (bits / 0x8000_0000_0000_0000) as int;
    if 897 <= ex <= 1150 {
        (sign * 0x8000_0000 + (ex - 896) * 0x80_0000 + mant / 0x2000_0000) as u32
    } else {
        0
    }
}

/// The encoding of a `Double` given by its bit pattern: the one-byte forms
/// of 0.0 and 1.0, a whole number in a byte or in two bytes, a value that
/// single precision holds exactly in four bytes, else all eight bytes.
pub open spec fn double_form(bits: u64) -> Seq<u8> {
    let v = int_candidate(bits);
    let f = float_candidate(bits);
    if bits == 0 {
        seq![TAG_DOUBLE_ZERO]
    } else if bits == DOUBLE_ONE_BITS {
        seq![TAG_DOUBLE_ONE]
    } else if -0x80 <= v < 0x80 && double_bits_of_int(v) == bits {
        seq![TAG_DOUBLE_BYTE, ((v + 0x100) % 0x100) as u8]
    } else if -0x8000 <= v < 0x8000 && double_bits_of_int(v) == bits {
        let w = (v + 0x1_0000) % 0x1_0000;
        seq![TAG_DOUBLE_SHORT, (w / 0x100) as u8, (w % 0x100) as u8]
    } else if double_bits_of_float(f) == bits {
        seq![TAG_DOUBLE_FLOAT] + be4(f as int)
    } else {
        seq![TAG_DOUBLE] + be8(bits as int)
    }
}

/// The number of bytes, tag included, of an `Int` that starts with `tag`;
/// zero where `tag` does not start an `Int`.
pub open spec fn int_width(tag: u8) -> int {
    if 0x80 <= tag <= 0xbf {
        1
    } else if 0xc0 <= tag <= 0xcf {
        2
    } else if 0xd0 <= tag <= 0xd7 {
        3
    } else if tag == TAG_INT {
        5
    } else {
        0
    }
}

/// The `Int` that an encoding spells, read by its tag's bias.
pub open spec fn int_of(b: Seq<u8>) -> int {
    let t = b[0];
    if 0x80 <= t <= 0xbf {
        t - 0x90
    } else if 0xc0 <= t <= 0xcf {
        (t - 0xc8) * 0x100 + b[1]
    } else if 0xd0 <= t <= 0xd7 {
        (t - 0xd4) * 0x1_0000 + b[1] * 0x100 + b[2]
    } else {
        signed32(u32_of(b.subrange(1, 5)))
    }
}

/// The number of bytes, tag included, of a `Long` that starts with `tag`;
/// zero where `tag` does not start a `Long`.
pub open spec fn long_width(tag: u8) -> int {
    if 0xd8 <= tag <= 0xef {
        1
    } else if 0xf0 <= tag {
        2
    } else if 0x38 <= tag <= 0x3f {
        3
    } else if tag == TAG_LONG_INT {
        5
    } else if tag == TAG_LONG {
        9
    } else {
        0
    }
}

/// The `Long` that an encoding spells, read by its tag's bias.
pub open spec fn long_of(b: Seq<u8>) -> int {
    let t = b[0];
    if 0xd8 <= t <= 0xef {
        t - 0xe0
    } else if 0xf0 <= t {
        (t - 0xf8) * 0x100 + b[1]
    } else if 0x38 <= t <= 0x3f {
        (t - 0x3c) * 0x1_0000 + b[1] * 0x100 + b[2]
    } else if t == TAG_LONG_INT {
        signed32(u32_of(b.subrange(1, 5)))
    } else {
        signed64(u64_of(b.subrange(1, 9)))
    }
}

/// The number of bytes, tag included, of a `Date` that starts with `tag`.
pub open spec fn date_width(tag: u8) -> int {
    if tag == TAG_DATE_MINUTE {
        5
    } else if tag == TAG_DATE {
        9
    } else {
        0
    }
}

/// The milliseconds that a `Date` encoding spells: the minute form scaled
/// by 60000, the full form as it stands.
pub open spec fn date_of(b: Seq<u8>) -> int {
    if b[0] == TAG_DATE_MINUTE {
        signed32(u32_of(b.subrange(1, 5))) * 60000
    } else {
        signed64(u64_of(b.subrange(1, 9)))
    }
}

pub proof fn lemma_u32_of_be4(u: int)
    requires
        0 <= u < 0x1_0000_0000,
    ensures
        u32_of(be4(u)) == u,
{
    let b = be4(u);
    assert(u % 0x1_0000_0000 == u);
    let a0 = u / 0x100_0000;
    let a1 = (u / 0x1_0000) % 0x100;
    let a2 = (u / 0x100) % 0x100;
    let a3 = u % 0x100;
    assert(0 <= a0 < 0x100);
    assert(b[0] as int == a0 && b[1] as int == a1 && b[2] as int == a2 && b[3] as int == a3);
    assert(u == (u / 0x100) * 0x100 + a3);
    assert(u / 0x100 == (u / 0x1_0000) * 0x100 + a2) by {
        vstd::arithmetic::div_mod::lemma_div_denominator(u, 0x100, 0x100);
    }
    assert(u / 0x1_0000 == (u / 0x100_0000) * 0x100 + a1) by {
        vstd::arithmetic::div_mod::lemma_div_denominator(u, 0x1_0000, 0x100);
    }
}

/// Four bytes written by `be4` read back as the same number modulo 2^32,
/// and a number of the range of `i32` comes back in two's complement.
pub proof fn lemma_be4_round_trip(v: int)
    requires
        in_i32(v),
    ensures
        be4(v).len() == 4,
        signed32(u32_of(be4(v))) == v,
{
    let w = v % 0x1_0000_0000;
    assert(be4(w) =~= be4(v));
    lemma_u32_of_be4(w);
}

/// Eight bytes written by `be8` read back in two's complement.
pub proof fn lemma_be8_round_trip(v: int)
    requires
        -0x8000_0000_0000_0000 <= v < 0x8000_0000_0000_0000,
    ensures
        be8(v).len() == 8,
        signed64(u64_of(be8(v))) == v,
{
    let w = v % 0x1_0000_0000_0000_0000;
    let hi = w / 0x1_0000_0000;
    let lo = w % 0x1_0000_0000;
    let b = be8(v);
    assert(be4(hi) =~= be4(hi % 0x1_0000_0000));
    assert(b.subrange(0, 4) =~= be4(hi));
    assert(b.subrange(4, 8) =~= be4(lo));
    lemma_u32_of_be4(hi);
    lemma_u32_of_be4(lo);
}

/// Eight bytes written by `be8` read back as the same unsigned number.
pub proof fn lemma_u64_of_be8(u: int)
    requires
        0 <= u < 0x1_0000_0000_0000_0000,
    ensures
        be8(u).len() == 8,
        u64_of(be8(u)) == u,
{
    let hi = u / 0x1_0000_0000;
    let lo = u % 0x1_0000_0000;
    let b = be8(u);
    assert(u % 0x1_0000_0000_0000_0000 == u);
    assert(be4(hi) =~= be4(hi % 0x1_0000_0000));
    assert(b.subrange(0, 4) =~= be4(hi));
    assert(b.subrange(4, 8) =~= be4(lo));
    lemma_u32_of_be4(hi);
    lemma_u32_of_be4(lo);
}

/// Every `Int` reads back from its encoding, which is as long as its tag
/// says.
pub proof fn lemma_int_round_trip(v: i32)
    ensures
        int_form(v as int).len() == int_width(int_form(v as int)[0]),
        int_of(int_form(v as int)) == v,
{
    let b = int_form(v as int);
    if -16 <= v <= 47 {
    } else if -2048 <= v <= 2047 {
        let w = v + 2048;
        assert(w == (w / 0x100) * 0x100 + w % 0x100);
    } else if -262144 <= v <= 262143 {
        let w = v + 262144;
        assert(w / 0x100 == (w / 0x1_0000) * 0x100 + (w / 0x100) % 0x100) by {
            vstd::arithmetic::div_mod::lemma_div_denominator(w, 0x100, 0x100);
        }
        assert(w == (w / 0x100) * 0x100 + w % 0x100);
    } else {
        lemma_be4_round_trip(v as int);
        assert(b.subrange(1, 5) =~= be4(v as int));
    }
}

/// Every `Long` reads back from its encoding, which is as long as its tag
/// says.
pub proof fn lemma_long_round_trip(v: i64)
    ensures
        long_form(v as int).len() == long_width(long_form(v as int)[0]),
        long_of(long_form(v as int)) == v,
{
    let b = long_form(v as int);
    if -8 <= v <= 15 {
    } else if -2048 <= v <= 2047 {
        let w = v + 2048;
        assert(w == (w / 0x100) * 0x100 + w % 0x100);
    } else if -262144 <= v <= 262143 {
        let w = v + 262144;
        assert(w / 0x100 == (w / 0x1_0000) * 0x100 + (w / 0x100) % 0x100) by {
            vstd::arithmetic::div_mod::lemma_div_denominator(w, 0x100, 0x100);
        }
        assert(w == (w / 0x100) * 0x100 + w % 0x100);
    } else if in_i32(v as int) {
        lemma_be4_round_trip(v as int);
        assert(b.subrange(1, 5) =~= be4(v as int));
    } else {
        lemma_be8_round_trip(v as int);
        assert(b.subrange(1, 9) =~= be8(v as int));
    }
}

/// Every `Date` reads back from its encoding as the same milliseconds,
/// whichever of the two forms was chosen.
pub proof fn lemma_date_round_trip(ms: i64)
    ensures
        date_form(ms as int).len() == date_width(date_form(ms as int)[0]),
        date_of(date_form(ms as int)) == ms,
{
    let b = date_form(ms as int);
    if ms as int % 60000 == 0 && in_i32(ms as int / 60000) {
        lemma_be4_round_trip(ms as int / 60000);
        assert(b.subrange(1, 5) =~= be4(ms as int / 60000));
    } else {
        lemma_be8_round_trip(ms as int);
        assert(b.subrange(1, 9) =~= be8(ms as int));
    }
}

/// Appends the four bytes of `u`, most significant first.
pub fn push_u32(out: &mut Vec<u8>, u: u32)
    ensures
        final(out)@ == old(out)@ + be4(u as int),
{
    out.push((u / 0x100_0000) as u8);
    out.push(((u / 0x1_0000) % 0x100) as u8);
    out.push(((u / 0x100) % 0x100) as u8);
    out.push((u % 0x100) as u8);
    assert(final(out)@ =~= old(out)@ + be4(u as int));
}

/// Appends the eight bytes of `u`, most significant first.
#[verifier::rlimit(50)]
pub fn push_u64(out: &mut Vec<u8>, u: u64)
    ensures
        final(out)@ == old(out)@ + be8(u as int),
{
    let hi = (u / 0x1_0000_0000) as u32;
    let lo = (u % 0x1_0000_0000) as u32;
    assert(u as int % 0x1_0000_0000_0000_0000 == u as int);
    assert(be8(u as int) == be4(hi as int) + be4(lo as int));
    push_u32(out, hi);
    push_u32(out, lo);
    assert(final(out)@ =~= old(out)@ + be8(u as int));
}

fn push_form2(out: &mut Vec<u8>, base: u8, w: u32)
    requires
        w < 0x1000,
        base as int + w / 0x100 < 0x100,
    ensures
        final(out)@ == old(out)@ + form2(base as int, w as int),
{
    out.push(base + (w / 0x100) as u8);
    out.push((w % 0x100) as u8);
    assert(final(out)@ =~= old(out)@ + form2(base as int, w as int));
}

fn push_form3(out: &mut Vec<u8>, base: u8, w: u32)
    requires
        w < 0x8_0000,
        base as int + w / 0x1_0000 < 0x100,
    ensures
        final(out)@ == old(out)@ + form3(base as int, w as int),
{
    out.push(base + (w / 0x1_0000) as u8);
    out.push(((w / 0x100) % 0x100) as u8);
    out.push((w % 0x100) as u8);
    assert(final(out)@ =~= old(out)@ + form3(base as int, w as int));
}

/// Appends the four bytes of a number in the range of `i32`, in two's
/// complement.
fn push_i32(out: &mut Vec<u8>, v: i64)
    requires
        in_i32(v as int),
    ensures
        final(out)@ == old(out)@ + be4(v as int),
{
    let u: u32 = if v < 0 {
        (v + 0x1_0000_0000) as u32
    } else {
        v as u32
    };
    assert(u as int % 0x1_0000_0000 == v as int % 0x1_0000_0000);
    assert(be4(u as int) =~= be4(v as int));
    push_u32(out, u);
}

/// Appends the eight bytes of `v` in two's complement.
fn push_i64(out: &mut Vec<u8>, v: i64)
    ensures
        final(out)@ == old(out)@ + be8(v as int),
{
    let u: u64 = if v < 0 {
        (v as i128 + 0x1_0000_0000_0000_0000) as u64
    } else {
        v as u64
    };
    assert(u as int % 0x1_0000_0000_0000_0000 == v as int % 0x1_0000_0000_0000_0000);
    assert(be8(u as int) =~= be8(v as int));
    push_u64(out, u);
}

/// Appends the encoding of an `Int`.
pub fn write_int(out: &mut Vec<u8>, v: i32)
    ensures
        final(out)@ == old(out)@ + int_form(v as int),
{
    if -16 <= v && v <= 47 {
        out.push((v + 0x90) as u8);
        assert(final(out)@ =~= old(out)@ + int_form(v as int));
    } else if -2048 <= v && v <= 2047 {
        push_form2(out, 0xc0, (v + 2048) as u32);
    } else if -262144 <= v && v <= 262143 {
        push_form3(out, 0xd0, (v + 262144) as u32);
    } else {
        out.push(TAG_INT);
        push_i32(out, v as i64);
        assert(final(out)@ =~= old(out)@ + int_form(v as int));
    }
}

/// Appends the encoding of a `Long`.
pub fn write_long(out: &mut Vec<u8>, v: i64)
    ensures
        final(out)@ == old(out)@ + long_form(v as int),
{
    if -8 <= v && v <= 15 {
        out.push((v + 0xe0) as u8);
        assert(final(out)@ =~= old(out)@ + long_form(v as int));
    } else if -2048 <= v && v <= 2047 {
        push_form2(out, 0xf0, (v + 2048) as u32);
    } else if -262144 <= v && v <= 262143 {
        push_form3(out, 0x38, (v + 262144) as u32);
    } else if -0x8000_0000 <= v && v < 0x8000_0000 {
        out.push(TAG_LONG_INT);
        push_i32(out, v);
        assert(final(out)@ =~= old(out)@ + long_form(v as int));
    } else {
        out.push(TAG_LONG);
        push_i64(out, v);
        assert(final(out)@ =~= old(out)@ + long_form(v as int));
    }
}

/// Appends the encoding of a `Date` of `ms` milliseconds since the epoch.
pub fn write_date(out: &mut Vec<u8>, ms: i64)
    ensures
        final(out)@ == old(out)@ + date_form(ms as int),
{
    let minutes = ms / MINUTE_MS;
    let rest = ms % MINUTE_MS;
    assert(ms as int == minutes as int * 60000 + rest as int);
    if rest == 0 && -0x8000_0000 <= minutes && minutes < 0x8000_0000 {
        assert(ms as int % 60000 == 0 && ms as int / 60000 == minutes as int);
        out.push(TAG_DATE_MINUTE);
        push_i32(out, minutes);
        assert(final(out)@ =~= old(out)@ + date_form(ms as int));
    } else {
        assert(!(ms as int % 60000 == 0 && in_i32(ms as int / 60000)));
        out.push(TAG_DATE);
        push_i64(out, ms);
        assert(final(out)@ =~= old(out)@ + date_form(ms as int));
    }
}

fn int_candidate_exec(bits: u64) -> (r: i32)
    ensures
        r == int_candidate(bits),
{
    let ex = (bits / 0x10_0000_0000_0000) % 0x800;
    let mant = bits % 0x10_0000_0000_0000;
    if 1023 <= ex && ex <= 1038 {
        let q = pow2_exec((1075 - ex) as u32);
        proof {
            vstd::arithmetic::power2::lemma_pow2_pos((1075 - ex) as nat);
        }
        let mag = (0x10_0000_0000_0000 + mant) / q;
        if mag > 0x8000 {
            0x1_0000
        } else if bits >= 0x8000_0000_0000_0000 {
            -(mag as i32)
        } else {
            mag as i32
        }
    } else {
        0x1_0000
    }
}

/// Appends the encoding of a `Double` given by its bit pattern.
pub fn write_double(out: &mut Vec<u8>, bits: u64)
    ensures
        final(out)@ == old(out)@ + double_form(bits),
{
    let v = int_candidate_exec(bits);
    let ex = (bits / 0x10_0000_0000_0000) % 0x800;
    let mant = bits % 0x10_0000_0000_0000;
    let sign = bits / 0x8000_0000_0000_0000;
    let f: u32 = if 897 <= ex && ex <= 1150 {
        (sign * 0x8000_0000 + (ex - 896) * 0x80_0000 + mant / 0x2000_0000) as u32
    } else {
        0
    };
    assert(f == float_candidate(bits));
    if bits == 0 {
        out.push(TAG_DOUBLE_ZERO);
    } else if bits == DOUBLE_ONE_BITS {
        out.push(TAG_DOUBLE_ONE);
    } else if -0x80 <= v && v < 0x80 && f64_bits_of_int(v) == bits {
        out.push(TAG_DOUBLE_BYTE);
        out.push(((v + 0x100) % 0x100) as u8);
    } else if -0x8000 <= v && v < 0x8000 && f64_bits_of_int(v) == bits {
        let w = ((v + 0x1_0000) % 0x1_0000) as u32;
        out.push(TAG_DOUBLE_SHORT);
        out.push((w / 0x100) as u8);
        out.push((w % 0x100) as u8);
    } else if f64_bits_of_f32(f) == bits {
        out.push(TAG_DOUBLE_FLOAT);
        push_u32(out, f);
    } else {
        out.push(TAG_DOUBLE);
        push_u64(out, bits);
    }
    assert(final(out)@ =~= old(out)@ + double_form(bits));
}

} // verus!
