//! The binary form of the values that reach a disk or a peer.
//!
//! Every value is written with `bincode_next` under its standard configuration:
//! integers in a variable-length little-endian form, strings as a length and
//! their UTF-8 bytes. Structures are their fields in order, and a variant of an
//! enumeration is its position as a `u32` followed by its fields.
use vstd::arithmetic::power::*;
use vstd::prelude::*;
use vstd::slice::slice_subrange;
use vstd::utf8::*;

verus! {

// ------------------------------------------------------------ little endian

/// The lowest `width` bytes of `n`, least significant first.
pub open spec fn le_bytes(n: nat, width: nat) -> Seq<u8>
    decreases width,
{
    if width == 0 {
        Seq::empty()
    } else {
        seq![(n % 256) as u8] + le_bytes(n / 256, (width - 1) as nat)
    }
}

/// The number whose bytes are `s`, least significant first.
pub open spec fn le_value(s: Seq<u8>) -> nat
    decreases s.len(),
{
    if s.len() == 0 {
        0
    } else {
        s[0] as nat + 256 * le_value(s.skip(1))
    }
}

/// Whether `width` bytes are enough for `n`.
pub open spec fn fits(n: nat, width: nat) -> bool
    decreases width,
{
    if width == 0 {
        n == 0
    } else {
        fits(n / 256, (width - 1) as nat)
    }
}

pub proof fn lemma_le_bytes_len(n: nat, width: nat)
    ensures
        le_bytes(n, width).len() == width,
    decreases width,
{
    if width > 0 {
        lemma_le_bytes_len(n / 256, (width - 1) as nat);
    }
}

pub proof fn lemma_le_value_of_le_bytes(n: nat, width: nat)
    requires
        fits(n, width),
    ensures
        le_value(le_bytes(n, width)) == n,
    decreases width,
{
    if width > 0 {
        let rest = le_bytes(n / 256, (width - 1) as nat);
        lemma_le_value_of_le_bytes(n / 256, (width - 1) as nat);
        lemma_le_bytes_len(n, width);
        assert(le_bytes(n, width).skip(1) =~= rest);
    }
}

/// Four bytes are enough for a `u32`, and four bytes never make more than one.
pub proof fn lemma_u32_fits(n: nat)
    requires
        n < 0x1_0000_0000,
    ensures
        fits(n, 4),
{
    reveal_with_fuel(fits, 5);
}

pub proof fn lemma_le_value_bound4(s: Seq<u8>)
    requires
        s.len() == 4,
    ensures
        le_value(s) == s[0] + 256 * s[1] + 65536 * s[2] + 16777216 * s[3],
        le_value(s) < 0x1_0000_0000,
{
    reveal_with_fuel(le_value, 5);
    assert(s.skip(1).skip(1) =~= s.skip(2));
    assert(s.skip(2).skip(1) =~= s.skip(3));
    assert(s.skip(3).skip(1) =~= Seq::empty());
}

/// The four bytes of `x`, least significant first.
pub(crate) fn u32_to_le(x: u32) -> (r: Vec<u8>)
    ensures
        r@ == le_bytes(x as nat, 4),
{
    let mut out: Vec<u8> = Vec::new();
    out.push((x % 256) as u8);
    out.push((x / 256 % 256) as u8);
    out.push((x / 65536 % 256) as u8);
    out.push((x / 16777216 % 256) as u8);
    proof {
        reveal_with_fuel(le_bytes, 5);
        let n = x as nat;
        assert(n / 256 / 256 == n / 65536);
        assert(n / 256 / 256 / 256 == n / 16777216);
        assert(out@ =~= le_bytes(n, 4));
    }
    out
}

/// The `u32` whose bytes are the first four of `s`, least significant first.
pub(crate) fn u32_from_le(s: &[u8]) -> (r: u32)
    requires
        s@.len() >= 4,
    ensures
        r as nat == le_value(s@.take(4)),
{
    proof {
        lemma_le_value_bound4(s@.take(4));
    }
    s[0] as u32 + 256 * (s[1] as u32) + 65536 * (s[2] as u32) + 16777216 * (s[3] as u32)
}

// ------------------------------------------------------- the standard form

/// An unsigned integer in variable-length form: itself when it is below 251,
/// otherwise a marker byte and the narrowest of 2, 4, 8 or 16 bytes.
pub open spec fn varint(u: nat) -> Seq<u8> {
    if u < 251 {
        seq![u as u8]
    } else if u < 0x1_0000 {
        seq![251u8] + le_bytes(u, 2)
    } else if u < 0x1_0000_0000 {
        seq![252u8] + le_bytes(u, 4)
    } else if u < 0x1_0000_0000_0000_0000 {
        seq![253u8] + le_bytes(u, 8)
    } else {
        seq![254u8] + le_bytes(u, 16)
    }
}

/// How many bytes follow the marker byte `m`.
pub open spec fn varint_width(m: u8) -> nat {
    if m == 251 {
        2
    } else if m == 252 {
        4
    } else if m == 253 {
        8
    } else {
        16
    }
}

/// The unsigned integer at the front of `s` and the number of bytes it takes,
/// for a type of `widest` bytes. There is none when the bytes run out, when the
/// marker calls for more than `widest` bytes, and when it is the reserved 255.
pub open spec fn read_varint(s: Seq<u8>, widest: nat) -> Option<(nat, nat)> {
    if s.len() == 0 {
        None
    } else if s[0] < 251 {
        Some((s[0] as nat, 1))
    } else if s[0] == 255 || varint_width(s[0]) > widest || s.len() < 1 + varint_width(s[0]) {
        None
    } else {
        let width = varint_width(s[0]);
        Some((le_value(s.subrange(1, 1 + width as int)), 1 + width))
    }
}

/// A signed integer folded onto the unsigned ones: 0, -1, 1, -2, 2 and so on.
pub open spec fn zigzag(i: int) -> nat {
    if i >= 0 {
        (2 * i) as nat
    } else {
        (-2 * i - 1) as nat
    }
}

/// The signed integer that [`zigzag`] folds onto `n`.
pub open spec fn unzigzag(n: nat) -> int {
    if n % 2 == 0 {
        n as int / 2
    } else {
        -(n as int / 2) - 1
    }
}

/// A string in standard form: the length of its UTF-8 bytes, then the bytes.
pub open spec fn string_bytes(s: Seq<char>) -> Seq<u8> {
    varint(encode_utf8(s).len()) + encode_utf8(s)
}

/// An optional `u128` in standard form: a zero byte, or a one byte and the value.
pub open spec fn option_bytes(v: Option<u128>) -> Seq<u8> {
    match v {
        None => seq![0u8],
        Some(x) => seq![1u8] + varint(x as nat),
    }
}

/// The `u32` at the front of `s`, with what follows it.
pub open spec fn read_u32(s: Seq<u8>) -> Option<(u32, Seq<u8>)> {
    match read_varint(s, 4) {
        Some((v, n)) => Some((v as u32, s.skip(n as int))),
        None => None,
    }
}

/// The `u64` at the front of `s`, with what follows it.
pub open spec fn read_u64(s: Seq<u8>) -> Option<(u64, Seq<u8>)> {
    match read_varint(s, 8) {
        Some((v, n)) => Some((v as u64, s.skip(n as int))),
        None => None,
    }
}

/// The `u128` at the front of `s`, with what follows it.
pub open spec fn read_u128(s: Seq<u8>) -> Option<(u128, Seq<u8>)> {
    match read_varint(s, 16) {
        Some((v, n)) => Some((v as u128, s.skip(n as int))),
        None => None,
    }
}

/// The `i64` at the front of `s`, with what follows it.
pub open spec fn read_i64(s: Seq<u8>) -> Option<(i64, Seq<u8>)> {
    match read_varint(s, 8) {
        Some((v, n)) => Some((unzigzag(v) as i64, s.skip(n as int))),
        None => None,
    }
}

/// The string at the front of `s`, with what follows it. There is none when
/// the stated length runs past the end or the bytes are not UTF-8.
pub open spec fn read_string(s: Seq<u8>) -> Option<(Seq<char>, Seq<u8>)> {
    match read_varint(s, 8) {
        Some((len, n)) => {
            if n + len <= s.len() && valid_utf8(s.subrange(n as int, (n + len) as int)) {
                Some(
                    (
                        decode_utf8(s.subrange(n as int, (n + len) as int)),
                        s.skip((n + len) as int),
                    ),
                )
            } else {
                None
            }
        },
        None => None,
    }
}

/// The optional `u128` at the front of `s`, with what follows it.
pub open spec fn read_option(s: Seq<u8>) -> Option<(Option<u128>, Seq<u8>)> {
    if s.len() == 0 || s[0] > 1 {
        None
    } else if s[0] == 0 {
        Some((None, s.skip(1)))
    } else {
        match read_u128(s.skip(1)) {
            Some((v, rest)) => Some((Some(v), rest)),
            None => None,
        }
    }
}

// --------------------------------------------------- reading back a writing

/// A number fits into as many bytes as its variable-length form takes.
proof fn lemma_varint_fits(u: nat)
    ensures
        u < 0x1_0000 ==> fits(u, 2),
        u < 0x1_0000_0000 ==> fits(u, 4),
        u < 0x1_0000_0000_0000_0000 ==> fits(u, 8),
        u <= u128::MAX ==> fits(u, 16),
{
    reveal_with_fuel(fits, 17);
}

/// Reading the variable-length form of a number gives it back, whatever follows.
pub proof fn lemma_read_varint(u: nat, widest: nat, rest: Seq<u8>)
    requires
        u <= u128::MAX,
        widest == 4 || widest == 8 || widest == 16,
        widest == 4 ==> u <= u32::MAX,
        widest == 8 ==> u <= u64::MAX,
    ensures
        read_varint(varint(u) + rest, widest) == Some((u, varint(u).len())),
        (varint(u) + rest).skip(varint(u).len() as int) == rest,
        1 <= varint(u).len() <= 17,
{
    lemma_varint_fits(u);
    let s = varint(u) + rest;
    if u >= 251 {
        let width: nat = if u < 0x1_0000 {
            2
        } else if u < 0x1_0000_0000 {
            4
        } else if u < 0x1_0000_0000_0000_0000 {
            8
        } else {
            16
        };
        lemma_le_bytes_len(u, width);
        lemma_le_value_of_le_bytes(u, width);
        assert(s.subrange(1, 1 + width as int) =~= le_bytes(u, width));
    }
    assert(s.skip(varint(u).len() as int) =~= rest);
}

/// Reading a written `u32` gives it back, whatever follows.
pub proof fn lemma_read_u32(x: u32, rest: Seq<u8>)
    ensures
        read_u32(varint(x as nat) + rest) == Some((x, rest)),
{
    lemma_read_varint(x as nat, 4, rest);
}

/// Reading a written `u64` gives it back, whatever follows.
pub proof fn lemma_read_u64(x: u64, rest: Seq<u8>)
    ensures
        read_u64(varint(x as nat) + rest) == Some((x, rest)),
{
    lemma_read_varint(x as nat, 8, rest);
}

/// Reading a written `u128` gives it back, whatever follows.
pub proof fn lemma_read_u128(x: u128, rest: Seq<u8>)
    ensures
        read_u128(varint(x as nat) + rest) == Some((x, rest)),
{
    lemma_read_varint(x as nat, 16, rest);
}

/// Reading a written `i64` gives it back, whatever follows.
pub proof fn lemma_read_i64(x: i64, rest: Seq<u8>)
    ensures
        read_i64(varint(zigzag(x as int)) + rest) == Some((x, rest)),
{
    lemma_read_varint(zigzag(x as int), 8, rest);
}

/// Reading a written string gives it back, whatever follows.
pub proof fn lemma_read_string(x: Seq<char>, rest: Seq<u8>)
    requires
        encode_utf8(x).len() <= u64::MAX,
    ensures
        read_string(string_bytes(x) + rest) == Some((x, rest)),
{
    let body = encode_utf8(x);
    let head = varint(body.len());
    lemma_read_varint(body.len(), 8, body + rest);
    let s = string_bytes(x) + rest;
    assert(s =~= head + (body + rest));
    assert(s.subrange(head.len() as int, (head.len() + body.len()) as int) =~= body);
    encode_utf8_valid_utf8(x);
    encode_utf8_decode_utf8(x);
    assert(s.skip((head.len() + body.len()) as int) =~= rest);
}

/// Reading a written optional `u128` gives it back, whatever follows.
pub proof fn lemma_read_option(x: Option<u128>, rest: Seq<u8>)
    ensures
        read_option(option_bytes(x) + rest) == Some((x, rest)),
{
    let s = option_bytes(x) + rest;
    match x {
        None => {
            assert(s.skip(1) =~= rest);
        },
        Some(v) => {
            lemma_read_u128(v, rest);
            assert(s.skip(1) =~= varint(v as nat) + rest);
        },
    }
}

/// The number that `s` spells stays below 256 to the power of its length.
proof fn lemma_le_value_bound(s: Seq<u8>)
    ensures
        le_value(s) < pow(256, s.len()),
    decreases s.len(),
{
    reveal(pow);
    if s.len() > 0 {
        lemma_le_value_bound(s.skip(1));
    }
}

/// A variable-length number read as a `u64` is one.
proof fn lemma_read_varint_bound(s: Seq<u8>)
    ensures
        read_varint(s, 8) matches Some((v, n)) ==> v <= u64::MAX && n <= s.len(),
{
    if read_varint(s, 8) is Some && s[0] >= 251 {
        lemma_le_value_bound(s.subrange(1, 1 + varint_width(s[0]) as int));
        reveal_with_fuel(pow, 9);
    }
}

// --------------------------------------------------------- calls to bincode

/// What `bincode_next` reports when a value cannot be written.
#[verifier::external_type_specification]
#[verifier::external_body]
pub struct ExEncodeError(bincode_next::error::EncodeError);

/// What `bincode_next` reports when bytes hold no value of the asked type.
#[verifier::external_type_specification]
#[verifier::external_body]
pub struct ExDecodeError(bincode_next::error::DecodeError);

/// `bincode_next::encode_to_vec` of a `u32`: it never fails, since a vector
/// takes every byte, and gives the variable-length form.
#[verifier::external_body]
fn encode_u32(value: u32) -> (r: Result<Vec<u8>, bincode_next::error::EncodeError>)
    ensures
        r is Ok,
        r->Ok_0@ == varint(value as nat),
{
    bincode_next::encode_to_vec(value, bincode_next::config::standard())
}

/// `bincode_next::encode_to_vec` of a `u64`: it never fails and gives the
/// variable-length form.
#[verifier::external_body]
fn encode_u64(value: u64) -> (r: Result<Vec<u8>, bincode_next::error::EncodeError>)
    ensures
        r is Ok,
        r->Ok_0@ == varint(value as nat),
{
    bincode_next::encode_to_vec(value, bincode_next::config::standard())
}

/// `bincode_next::encode_to_vec` of a `u128`: it never fails and gives the
/// variable-length form.
#[verifier::external_body]
fn encode_u128(value: u128) -> (r: Result<Vec<u8>, bincode_next::error::EncodeError>)
    ensures
        r is Ok,
        r->Ok_0@ == varint(value as nat),
{
    bincode_next::encode_to_vec(value, bincode_next::config::standard())
}

/// `bincode_next::encode_to_vec` of an `i64`: it never fails and gives the
/// variable-length form of the value folded onto the unsigned integers.
#[verifier::external_body]
fn encode_i64(value: i64) -> (r: Result<Vec<u8>, bincode_next::error::EncodeError>)
    ensures
        r is Ok,
        r->Ok_0@ == varint(zigzag(value as int)),
{
    bincode_next::encode_to_vec(value, bincode_next::config::standard())
}

/// `bincode_next::encode_to_vec` of a string slice: it never fails and gives
/// the length of the UTF-8 bytes followed by those bytes.
#[verifier::external_body]
fn encode_str(value: &str) -> (r: Result<Vec<u8>, bincode_next::error::EncodeError>)
    ensures
        r is Ok,
        r->Ok_0@ == string_bytes(value@),
{
    bincode_next::encode_to_vec(value, bincode_next::config::standard())
}

/// `bincode_next::encode_to_vec` of an optional `u128`: it never fails and
/// gives one byte for the case, then the value if there is one.
#[verifier::external_body]
fn encode_option_u128(value: Option<u128>) -> (r: Result<
    Vec<u8>,
    bincode_next::error::EncodeError,
>)
    ensures
        r is Ok,
        r->Ok_0@ == option_bytes(value),
{
    bincode_next::encode_to_vec(value, bincode_next::config::standard())
}

/// `bincode_next::decode_from_slice` of a `u32`: the value at the front of the
/// bytes and how many bytes it takes, or an error where there is none.
#[verifier::external_body]
fn decode_u32(bytes: &[u8]) -> (r: Result<(u32, usize), bincode_next::error::DecodeError>)
    ensures
        match read_varint(bytes@, 4) {
            Some((v, n)) => r is Ok && r->Ok_0 == (v as u32, n as usize),
            None => r is Err,
        },
{
    bincode_next::decode_from_slice::<u32, _>(bytes, bincode_next::config::standard())
}

/// `bincode_next::decode_from_slice` of a `u64`: the value at the front of the
/// bytes and how many bytes it takes, or an error where there is none.
#[verifier::external_body]
fn decode_u64(bytes: &[u8]) -> (r: Result<(u64, usize), bincode_next::error::DecodeError>)
    ensures
        match read_varint(bytes@, 8) {
            Some((v, n)) => r is Ok && r->Ok_0 == (v as u64, n as usize),
            None => r is Err,
        },
{
    bincode_next::decode_from_slice::<u64, _>(bytes, bincode_next::config::standard())
}

/// `bincode_next::decode_from_slice` of a `u128`: the value at the front of the
/// bytes and how many bytes it takes, or an error where there is none.
#[verifier::external_body]
fn decode_u128(bytes: &[u8]) -> (r: Result<(u128, usize), bincode_next::error::DecodeError>)
    ensures
        match read_varint(bytes@, 16) {
            Some((v, n)) => r is Ok && r->Ok_0 == (v as u128, n as usize),
            None => r is Err,
        },
{
    bincode_next::decode_from_slice::<u128, _>(bytes, bincode_next::config::standard())
}

/// `bincode_next::decode_from_slice` of an `i64`: the value at the front of the
/// bytes, unfolded from the unsigned integers, and how many bytes it takes, or
/// an error where there is none.
#[verifier::external_body]
fn decode_i64(bytes: &[u8]) -> (r: Result<(i64, usize), bincode_next::error::DecodeError>)
    ensures
        match read_varint(bytes@, 8) {
            Some((v, n)) => r is Ok && r->Ok_0 == (unzigzag(v) as i64, n as usize),
            None => r is Err,
        },
{
    bincode_next::decode_from_slice::<i64, _>(bytes, bincode_next::config::standard())
}

/// `bincode_next::decode_from_slice` of a `String`: the string at the front of
/// the bytes and how many bytes it takes, or an error where the bytes are not
/// UTF-8. The call makes room for the stated length before it looks at what is
/// there, so the length has to be one that the bytes can hold.
#[verifier::external_body]
fn decode_string(bytes: &[u8]) -> (r: Result<(String, usize), bincode_next::error::DecodeError>)
    requires
        read_varint(bytes@, 8) matches Some((len, n)) && n + len <= bytes@.len(),
    ensures
        match read_string(bytes@) {
            Some((text, rest)) => r is Ok && r->Ok_0.0@ == text && r->Ok_0.1 == bytes@.len()
                - rest.len(),
            None => r is Err,
        },
{
    bincode_next::decode_from_slice::<String, _>(bytes, bincode_next::config::standard())
}

/// `bincode_next::decode_from_slice` of an optional `u128`: the value at the
/// front of the bytes and how many bytes it takes, or an error where there is
/// none.
#[verifier::external_body]
fn decode_option_u128(bytes: &[u8]) -> (r: Result<
    (Option<u128>, usize),
    bincode_next::error::DecodeError,
>)
    ensures
        match read_option(bytes@) {
            Some((v, rest)) => r is Ok && r->Ok_0 == (v, (bytes@.len() - rest.len()) as usize),
            None => r is Err,
        },
{
    bincode_next::decode_from_slice::<Option<u128>, _>(bytes, bincode_next::config::standard())
}

// ------------------------------------------------------- writing and reading

/// The bytes at hand are not the standard form of the value that was asked for.
#[derive(Clone, Copy, PartialEq, Eq, Debug, Structural)]
pub struct Malformed;

/// Appends a `u32` to `out`.
pub fn put_u32(out: &mut Vec<u8>, value: u32)
    ensures
        final(out)@ == old(out)@ + varint(value as nat),
{
    if let Ok(mut bytes) = encode_u32(value) {
        out.append(&mut bytes);
    }
}

/// Appends a `u64` to `out`.
pub fn put_u64(out: &mut Vec<u8>, value: u64)
    ensures
        final(out)@ == old(out)@ + varint(value as nat),
{
    if let Ok(mut bytes) = encode_u64(value) {
        out.append(&mut bytes);
    }
}

/// Appends a `u128` to `out`.
pub fn put_u128(out: &mut Vec<u8>, value: u128)
    ensures
        final(out)@ == old(out)@ + varint(value as nat),
{
    if let Ok(mut bytes) = encode_u128(value) {
        out.append(&mut bytes);
    }
}

/// Appends an `i64` to `out`.
pub fn put_i64(out: &mut Vec<u8>, value: i64)
    ensures
        final(out)@ == old(out)@ + varint(zigzag(value as int)),
{
    if let Ok(mut bytes) = encode_i64(value) {
        out.append(&mut bytes);
    }
}

/// Appends a string to `out`.
pub fn put_str(out: &mut Vec<u8>, value: &str)
    ensures
        final(out)@ == old(out)@ + string_bytes(value@),
{
    if let Ok(mut bytes) = encode_str(value) {
        out.append(&mut bytes);
    }
}

/// Appends an optional `u128` to `out`.
pub fn put_option(out: &mut Vec<u8>, value: Option<u128>)
    ensures
        final(out)@ == old(out)@ + option_bytes(value),
{
    if let Ok(mut bytes) = encode_option_u128(value) {
        out.append(&mut bytes);
    }
}

/// Splits a `u32` off the front of `bytes`.
pub fn take_u32<'a>(bytes: &'a [u8]) -> (r: Result<(u32, &'a [u8]), Malformed>)
    ensures
        match read_u32(bytes@) {
            Some((v, rest)) => r is Ok && r->Ok_0.0 == v && r->Ok_0.1@ == rest,
            None => r == Err::<(u32, &'a [u8]), Malformed>(Malformed),
        },
{
    match decode_u32(bytes) {
        Ok((v, n)) => Ok((v, slice_subrange(bytes, n, bytes.len()))),
        Err(_) => Err(Malformed),
    }
}

/// Splits a `u64` off the front of `bytes`.
pub fn take_u64<'a>(bytes: &'a [u8]) -> (r: Result<(u64, &'a [u8]), Malformed>)
    ensures
        match read_u64(bytes@) {
            Some((v, rest)) => r is Ok && r->Ok_0.0 == v && r->Ok_0.1@ == rest,
            None => r == Err::<(u64, &'a [u8]), Malformed>(Malformed),
        },
{
    match decode_u64(bytes) {
        Ok((v, n)) => Ok((v, slice_subrange(bytes, n, bytes.len()))),
        Err(_) => Err(Malformed),
    }
}

/// Splits a `u128` off the front of `bytes`.
pub fn take_u128<'a>(bytes: &'a [u8]) -> (r: Result<(u128, &'a [u8]), Malformed>)
    ensures
        match read_u128(bytes@) {
            Some((v, rest)) => r is Ok && r->Ok_0.0 == v && r->Ok_0.1@ == rest,
            None => r == Err::<(u128, &'a [u8]), Malformed>(Malformed),
        },
{
    match decode_u128(bytes) {
        Ok((v, n)) => Ok((v, slice_subrange(bytes, n, bytes.len()))),
        Err(_) => Err(Malformed),
    }
}

/// Splits an `i64` off the front of `bytes`.
pub fn take_i64<'a>(bytes: &'a [u8]) -> (r: Result<(i64, &'a [u8]), Malformed>)
    ensures
        match read_i64(bytes@) {
            Some((v, rest)) => r is Ok && r->Ok_0.0 == v && r->Ok_0.1@ == rest,
            None => r == Err::<(i64, &'a [u8]), Malformed>(Malformed),
        },
{
    match decode_i64(bytes) {
        Ok((v, n)) => Ok((v, slice_subrange(bytes, n, bytes.len()))),
        Err(_) => Err(Malformed),
    }
}

/// Splits a string off the front of `bytes`. A length that runs past the end is
/// refused before any room is made for it.
pub fn take_string<'a>(bytes: &'a [u8]) -> (r: Result<(String, &'a [u8]), Malformed>)
    ensures
        match read_string(bytes@) {
            Some((v, rest)) => r is Ok && r->Ok_0.0@ == v && r->Ok_0.1@ == rest,
            None => r is Err && r->Err_0 == Malformed,
        },
{
    match decode_u64(bytes) {
        Ok((len, n)) => {
            proof {
                lemma_read_varint_bound(bytes@);
            }
            if len > (bytes.len() - n) as u64 {
                return Err(Malformed);
            }
        },
        Err(_) => {
            return Err(Malformed);
        },
    }
    match decode_string(bytes) {
        Ok((text, n)) => Ok((text, slice_subrange(bytes, n, bytes.len()))),
        Err(_) => Err(Malformed),
    }
}

/// Splits an optional `u128` off the front of `bytes`.
pub fn take_option<'a>(bytes: &'a [u8]) -> (r: Result<(Option<u128>, &'a [u8]), Malformed>)
    ensures
        match read_option(bytes@) {
            Some((v, rest)) => r is Ok && r->Ok_0.0 == v && r->Ok_0.1@ == rest,
            None => r == Err::<(Option<u128>, &'a [u8]), Malformed>(Malformed),
        },
{
    match decode_option_u128(bytes) {
        Ok((v, n)) => Ok((v, slice_subrange(bytes, n, bytes.len()))),
        Err(_) => Err(Malformed),
    }
}

/// A number is read from however many bytes its marker announces, lowest first,
/// whether or not it would have fitted into fewer; a marker for more bytes than the
/// type has, a marker that means nothing, and bytes that run out give no number.
pub proof fn law_number_is_read_as_wide_as_it_is_marked(s: Seq<u8>, widest: nat)
    requires
        widest == 4 || widest == 8 || widest == 16,
    ensures
        s.len() == 0 ==> read_varint(s, widest) is None,
        s.len() > 0 && s[0] < 251 ==> read_varint(s, widest) == Some((s[0] as nat, 1nat)),
        s.len() >= 3 && s[0] == 251 ==> read_varint(s, widest) == Some(
            ((s[1] + 256 * s[2]) as nat, 3nat),
        ),
        s.len() >= 5 && s[0] == 252 ==> read_varint(s, widest) == Some(
            ((s[1] + 256 * s[2] + 65536 * s[3] + 16777216 * s[4]) as nat, 5nat),
        ),
        s.len() >= 9 && s[0] == 253 && widest >= 8 ==> read_varint(s, widest) == Some(
            (le_value(s.subrange(1, 9)), 9nat),
        ),
        s.len() >= 17 && s[0] == 254 && widest >= 16 ==> read_varint(s, widest) == Some(
            (le_value(s.subrange(1, 17)), 17nat),
        ),
        s.len() > 0 && s[0] == 255 ==> read_varint(s, widest) is None,
        s.len() > 0 && s[0] == 253 && widest < 8 ==> read_varint(s, widest) is None,
        s.len() > 0 && s[0] == 254 && widest < 16 ==> read_varint(s, widest) is None,
        0 < s.len() < 3 && s[0] == 251 ==> read_varint(s, widest) is None,
        0 < s.len() < 5 && s[0] == 252 ==> read_varint(s, widest) is None,
        0 < s.len() < 9 && s[0] == 253 ==> read_varint(s, widest) is None,
        0 < s.len() < 17 && s[0] == 254 ==> read_varint(s, widest) is None,
{
    reveal_with_fuel(le_value, 5);
}

/// Values are read off the front of some bytes and leave what follows them: a number
/// where one of its width is, a signed one unfolded, a text as long as it says that
/// it is and only if it is one, and an optional value behind a byte that tells
/// whether it is there.
pub proof fn law_values_are_read_off_the_front(s: Seq<u8>)
    ensures
        match read_varint(s, 4) {
            Some((v, n)) => read_u32(s) == Some((v as u32, s.skip(n as int))),
            None => read_u32(s) is None,
        },
        match read_varint(s, 8) {
            Some((v, n)) => {
                &&& read_u64(s) == Some((v as u64, s.skip(n as int)))
                &&& read_i64(s) == Some((unzigzag(v) as i64, s.skip(n as int)))
                &&& n + v <= s.len() && valid_utf8(s.subrange(n as int, (n + v) as int))
                    ==> read_string(s) == Some(
                    (decode_utf8(s.subrange(n as int, (n + v) as int)), s.skip((n + v) as int)),
                )
                &&& !(n + v <= s.len() && valid_utf8(s.subrange(n as int, (n + v) as int)))
                    ==> read_string(s) is None
            },
            None => read_u64(s) is None && read_i64(s) is None && read_string(s) is None,
        },
        match read_varint(s, 16) {
            Some((v, n)) => read_u128(s) == Some((v as u128, s.skip(n as int))),
            None => read_u128(s) is None,
        },
        s.len() == 0 || s[0] > 1 ==> read_option(s) is None,
        s.len() > 0 && s[0] == 0 ==> read_option(s) == Some((None::<u128>, s.skip(1))),
        s.len() > 0 && s[0] == 1 ==> match read_u128(s.skip(1)) {
            Some((v, rest)) => read_option(s) == Some((Some(v), rest)),
            None => read_option(s) is None,
        },
{
}

/// Signed numbers are folded onto the unsigned ones and unfolded again without loss,
/// those near nought first: a number and its negative are next to each other.
pub proof fn law_signed_numbers_fold_and_unfold(i: int)
    ensures
        unzigzag(zigzag(i)) == i,
        i > 0 ==> zigzag(i) == 2 * i && zigzag(-i) == 2 * i - 1,
        zigzag(0) == 0,
{
}

} // verus!
