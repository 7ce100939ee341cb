//! Byte-level codec shared by every tree: big-endian integers, the `0xff`
//! field separator, and the few helpers that reach outside the crate.

use rand::Rng;
use vstd::prelude::*;
use vstd::utf8::*;

verus! {

/// The byte that separates the fields of a composite key.
pub const SEPARATOR: u8 = 0xff;

/// `256` to the power `len`.
pub open spec fn pow256(len: nat) -> nat
    decreases len,
{
    if len == 0 {
        1
    } else {
        256 * pow256((len - 1) as nat)
    }
}

/// The `len` lowest base-256 digits of `x`, most significant first.
pub open spec fn be_bytes(x: nat, len: nat) -> Seq<u8>
    decreases len,
{
    if len == 0 {
        Seq::empty()
    } else {
        be_bytes(x / 256, (len - 1) as nat).push((x % 256) as u8)
    }
}

/// The number whose base-256 digits, most significant first, are `s`.
pub open spec fn be_value(s: Seq<u8>) -> nat
    decreases s.len(),
{
    if s.len() == 0 {
        0
    } else {
        be_value(s.drop_last()) * 256 + s.last() as nat
    }
}

pub proof fn lemma_be_bytes_len(x: nat, len: nat)
    ensures
        be_bytes(x, len).len() == len,
    decreases len,
{
    if len > 0 {
        lemma_be_bytes_len(x / 256, (len - 1) as nat);
    }
}

/// Decoding what was encoded gives the number back, as long as it fits.
pub proof fn lemma_be_value_of_bytes(x: nat, len: nat)
    requires
        x < pow256(len),
    ensures
        be_value(be_bytes(x, len)) == x,
    decreases len,
{
    if len > 0 {
        let rest = be_bytes(x / 256, (len - 1) as nat);
        lemma_be_value_of_bytes(x / 256, (len - 1) as nat);
        assert(rest.push((x % 256) as u8).drop_last() =~= rest);
    }
}

/// Encoding what was decoded gives the bytes back.
pub proof fn lemma_be_bytes_of_value(s: Seq<u8>)
    ensures
        be_value(s) < pow256(s.len()),
        be_bytes(be_value(s), s.len()) == s,
    decreases s.len(),
{
    if s.len() > 0 {
        lemma_be_bytes_of_value(s.drop_last());
        let v = be_value(s.drop_last());
        assert((v * 256 + s.last() as nat) / 256 == v);
        assert((v * 256 + s.last() as nat) % 256 == s.last() as nat);
        assert(be_bytes(v, (s.len() - 1) as nat).push(s.last()) =~= s);
    } else {
        assert(be_bytes(0, 0) =~= s);
    }
}

pub proof fn lemma_pow256_values()
    ensures
        pow256(4) == 0x1_0000_0000,
        pow256(8) == 0x1_0000_0000_0000_0000,
        pow256(16) == 0x1_0000_0000_0000_0000_0000_0000_0000_0000,
{
    reveal_with_fuel(pow256, 9);
    assert(pow256(16) == pow256(8) * pow256(8)) by {
        reveal_with_fuel(pow256, 9);
        lemma_pow256_sum(8, 8);
    }
}

pub proof fn lemma_pow256_sum(a: nat, b: nat)
    ensures
        pow256(a + b) == pow256(a) * pow256(b),
    decreases b,
{
    if b > 0 {
        lemma_pow256_sum(a, (b - 1) as nat);
        assert(pow256(a + b) == 256 * pow256((a + b - 1) as nat));
        assert(256 * (pow256(a) * pow256((b - 1) as nat)) == pow256(a) * (256 * pow256(
            (b - 1) as nat,
        ))) by (nonlinear_arith);
    } else {
        assert(pow256(a) * 1 == pow256(a)) by (nonlinear_arith);
    }
}

pub proof fn lemma_pow256_monotonic(a: nat, b: nat)
    requires
        a <= b,
    ensures
        0 < pow256(a) <= pow256(b),
    decreases b,
{
    if b == 0 {
    } else if a < b {
        lemma_pow256_monotonic(a, (b - 1) as nat);
    } else {
        lemma_pow256_monotonic((a - 1) as nat, (b - 1) as nat);
    }
}

/// Numbers of one width sort as their encodings do: the smaller number
/// has the encoding that comes first in the order of the keys.
pub proof fn lemma_be_bytes_ordered(a: nat, b: nat, len: nat)
    requires
        a < b < pow256(len),
    ensures
        crate::order::lex_lt(be_bytes(a, len), be_bytes(b, len)),
    decreases len,
{
    let low = (len - 1) as nat;
    let x = be_bytes(a, len);
    let y = be_bytes(b, len);
    lemma_be_bytes_len(a, len);
    lemma_be_bytes_len(b, len);
    lemma_be_bytes_len(a / 256, low);
    lemma_be_bytes_len(b / 256, low);
    if a / 256 < b / 256 {
        lemma_be_bytes_ordered(a / 256, b / 256, low);
        let i = choose|i: int| #[trigger]
            crate::order::differ_at(be_bytes(a / 256, low), be_bytes(b / 256, low), i);
        assert(crate::order::differ_at(x, y, i));
    } else {
        assert(a / 256 == b / 256);
        assert(a % 256 < b % 256);
        assert(crate::order::differ_at(x, y, low as int));
    }
}

/// Encodings of one width sort as their numbers do: of two byte strings of
/// one length, the one that comes first in the order of the keys holds the
/// smaller number.
pub proof fn lemma_be_value_ordered(a: Seq<u8>, b: Seq<u8>)
    requires
        a.len() == b.len(),
        crate::order::lex_lt(a, b),
    ensures
        be_value(a) < be_value(b),
{
    lemma_be_bytes_of_value(a);
    lemma_be_bytes_of_value(b);
    crate::order::lemma_lex_asymmetric(a, b);
    if be_value(b) < be_value(a) {
        lemma_be_bytes_ordered(be_value(b), be_value(a), a.len());
    }
}

/// The value of two byte strings joined: the first counts `256` to the
/// power of the second's length.
pub proof fn lemma_be_value_concat(high: Seq<u8>, low: Seq<u8>)
    ensures
        be_value(high + low) == be_value(high) * pow256(low.len()) + be_value(low),
    decreases low.len(),
{
    if low.len() == 0 {
        assert(high + low =~= high);
        assert(be_value(high) * 1 == be_value(high)) by (nonlinear_arith);
    } else {
        let rest = low.drop_last();
        lemma_be_value_concat(high, rest);
        assert((high + low).drop_last() =~= high + rest);
        assert((high + low).last() == low.last());
        let h = be_value(high);
        let p = pow256(rest.len());
        assert(pow256(low.len()) == 256 * p);
        assert((h * p + be_value(rest)) * 256 == h * (256 * p) + be_value(rest) * 256)
            by (nonlinear_arith);
    }
}

/// The big-endian encoding of `x` in `len` bytes.
pub fn be_encode(x: u128, len: usize) -> (r: Vec<u8>)
    ensures
        r@ == be_bytes(x as nat, len as nat),
{
    let mut digits: Vec<u8> = Vec::new();
    let mut rest: u128 = x;
    let mut i: usize = 0;
    while i < len
        invariant
            i <= len,
            digits@.len() == i,
            forall|n: nat|
                be_bytes(x as nat, n + i as nat) == be_bytes(rest as nat, n) + digits@.reverse(),
        decreases len - i,
    {
        let ghost before = digits@;
        let ghost rest_before = rest;
        digits.push((rest % 256) as u8);
        rest = rest / 256;
        i = i + 1;
        assert forall|n: nat|
            be_bytes(x as nat, n + i as nat) == be_bytes(rest as nat, n) + digits@.reverse() by {
            let d = (rest_before % 256) as u8;
            assert(be_bytes(rest_before as nat, n + 1) == be_bytes(rest as nat, n).push(d));
            assert(digits@.reverse() =~= seq![d] + before.reverse());
            assert(be_bytes(x as nat, (n + 1) + (i - 1) as nat) == be_bytes(
                rest_before as nat,
                n + 1,
            ) + before.reverse());
            assert(be_bytes(rest as nat, n).push(d) + before.reverse() =~= be_bytes(
                rest as nat,
                n,
            ) + (seq![d] + before.reverse()));
        }
    }
    let mut out: Vec<u8> = Vec::new();
    let mut j: usize = len;
    while j > 0
        invariant
            j <= len,
            digits@.len() == len,
            out@ == digits@.reverse().take(len - j),
        decreases j,
    {
        j = j - 1;
        out.push(digits[j]);
        assert(out@ =~= digits@.reverse().take(len - j));
    }
    proof {
        assert(be_bytes(x as nat, 0 + len as nat) == be_bytes(rest as nat, 0)
            + digits@.reverse());
        assert(out@ =~= be_bytes(x as nat, len as nat));
    }
    out
}

/// Reads a big-endian integer of at most sixteen bytes.
pub fn be_decode(bytes: &[u8]) -> (r: u128)
    requires
        bytes@.len() <= 16,
    ensures
        r as nat == be_value(bytes@),
{
    let mut acc: u128 = 0;
    let mut i: usize = 0;
    while i < bytes.len()
        invariant
            i <= bytes@.len() <= 16,
            acc as nat == be_value(bytes@.take(i as int)),
            acc < pow256(i as nat),
        decreases bytes@.len() - i,
    {
        proof {
            lemma_pow256_values();
            lemma_pow256_monotonic((i + 1) as nat, 16);
            assert(bytes@.take(i + 1).drop_last() =~= bytes@.take(i as int));
            assert(pow256((i + 1) as nat) == 256 * pow256(i as nat));
        }
        acc = acc * 256 + bytes[i] as u128;
        i = i + 1;
    }
    assert(bytes@.take(bytes@.len() as int) =~= bytes@);
    acc
}

/// The big-endian encoding of `x` in eight bytes.
pub fn u64_to_be_bytes(x: u64) -> (r: Vec<u8>)
    ensures
        r@ == be_bytes(x as nat, 8),
{
    be_encode(x as u128, 8)
}

/// The big-endian encoding of `x` in four bytes.
pub fn u32_to_be_bytes(x: u32) -> (r: Vec<u8>)
    ensures
        r@ == be_bytes(x as nat, 4),
{
    be_encode(x as u128, 4)
}

/// Reads an eight-byte big-endian integer.
pub fn u64_from_be_bytes(bytes: &[u8]) -> (r: u64)
    requires
        bytes@.len() == 8,
    ensures
        r as nat == be_value(bytes@),
{
    proof {
        lemma_be_bytes_of_value(bytes@);
        lemma_pow256_values();
    }
    be_decode(bytes) as u64
}

/// Appends `bytes` to `key`.
pub fn append(key: &mut Vec<u8>, bytes: &[u8])
    ensures
        final(key)@ == old(key)@ + bytes@,
{
    key.extend_from_slice(bytes);
    assert(key@ =~= old(key)@ + bytes@);
}

/// A copy of `bytes`.
pub fn to_vec(bytes: &[u8]) -> (r: Vec<u8>)
    ensures
        r@ == bytes@,
{
    let mut out: Vec<u8> = Vec::new();
    append(&mut out, bytes);
    assert(Seq::<u8>::empty() + bytes@ =~= bytes@);
    out
}

/// A copy of `bytes[from..to]`.
pub fn copy_range(bytes: &[u8], from: usize, to: usize) -> (r: Vec<u8>)
    requires
        from <= to <= bytes@.len(),
    ensures
        r@ == bytes@.subrange(from as int, to as int),
{
    to_vec(vstd::slice::slice_subrange(bytes, from, to))
}

/// Whether two byte strings are the same.
pub fn bytes_eq(a: &[u8], b: &[u8]) -> (r: bool)
    ensures
        r == (a@ == b@),
{
    if a.len() != b.len() {
        return false;
    }
    let mut i: usize = 0;
    while i < a.len()
        invariant
            i <= a@.len(),
            a@.len() == b@.len(),
            a@.take(i as int) == b@.take(i as int),
        decreases a@.len() - i,
    {
        if a[i] != b[i] {
            return false;
        }
        i = i + 1;
        assert(a@.take(i as int) =~= a@.take(i - 1).push(a@[i - 1]));
        assert(b@.take(i as int) =~= b@.take(i - 1).push(b@[i - 1]));
    }
    assert(a@ =~= a@.take(i as int));
    assert(b@ =~= b@.take(i as int));
    true
}

/// Whether `bytes` begins with `prefix`.
pub fn starts_with(bytes: &[u8], prefix: &[u8]) -> (r: bool)
    ensures
        r == prefix@.is_prefix_of(bytes@),
{
    if prefix.len() > bytes.len() {
        return false;
    }
    bytes_eq(vstd::slice::slice_subrange(bytes, 0, prefix.len()), prefix)
}

/// Whether two strings hold the same characters.
pub fn str_eq(a: &str, b: &str) -> (r: bool)
    ensures
        r == (a@ == b@),
{
    let same = bytes_eq(a.as_bytes(), b.as_bytes());
    proof {
        encode_utf8_decode_utf8(a@);
        encode_utf8_decode_utf8(b@);
    }
    same
}

/// No byte of `s` is the field separator.
pub open spec fn sep_free(s: Seq<u8>) -> bool {
    forall|i: int| 0 <= i < s.len() ==> s[i] != SEPARATOR
}

/// The index of the first separator at or after `from`, or the length of `s`.
pub open spec fn next_sep(s: Seq<u8>, from: int) -> int
    decreases s.len() - from,
{
    if from >= s.len() {
        s.len() as int
    } else if from >= 0 && s[from] == SEPARATOR {
        from
    } else {
        next_sep(s, from + 1)
    }
}

/// One more than the index of the last separator before `to`, or zero.
pub open spec fn field_start(s: Seq<u8>, to: int) -> int
    decreases to,
{
    if to <= 0 {
        0
    } else if to <= s.len() && s[to - 1] == SEPARATOR {
        to
    } else {
        field_start(s, to - 1)
    }
}

/// The bytes before the first separator.
pub open spec fn first_field(s: Seq<u8>) -> Seq<u8> {
    s.take(next_sep(s, 0))
}

/// The bytes after the first separator, if there is one.
pub open spec fn after_first_field(s: Seq<u8>) -> Option<Seq<u8>> {
    if next_sep(s, 0) < s.len() {
        Some(s.skip(next_sep(s, 0) + 1))
    } else {
        None
    }
}

/// The bytes after the last separator.
pub open spec fn last_field(s: Seq<u8>) -> Seq<u8> {
    s.skip(field_start(s, s.len() as int))
}

/// The bytes before the last separator, if there is one.
pub open spec fn before_last_field(s: Seq<u8>) -> Option<Seq<u8>> {
    if field_start(s, s.len() as int) > 0 {
        Some(s.take(field_start(s, s.len() as int) - 1))
    } else {
        None
    }
}

pub proof fn lemma_next_sep(s: Seq<u8>, from: int)
    requires
        0 <= from <= s.len(),
    ensures
        from <= next_sep(s, from) <= s.len(),
        next_sep(s, from) < s.len() ==> s[next_sep(s, from)] == SEPARATOR,
        forall|i: int| from <= i < next_sep(s, from) ==> s[i] != SEPARATOR,
    decreases s.len() - from,
{
    if from < s.len() && s[from] != SEPARATOR {
        lemma_next_sep(s, from + 1);
    }
}

pub proof fn lemma_field_start(s: Seq<u8>, to: int)
    requires
        0 <= to <= s.len(),
    ensures
        0 <= field_start(s, to) <= to,
        field_start(s, to) > 0 ==> s[field_start(s, to) - 1] == SEPARATOR,
        forall|i: int| field_start(s, to) <= i < to ==> s[i] != SEPARATOR,
    decreases to,
{
    if to > 0 && s[to - 1] != SEPARATOR {
        lemma_field_start(s, to - 1);
    }
}

/// A separator-free field that ends a key is that key's last field.
pub proof fn lemma_last_field_of_join(head: Seq<u8>, field: Seq<u8>)
    requires
        sep_free(field),
    ensures
        last_field(head.push(SEPARATOR) + field) == field,
{
    let s = head.push(SEPARATOR) + field;
    lemma_field_start(s, s.len() as int);
    let start = field_start(s, s.len() as int);
    assert(s[head.len() as int] == SEPARATOR);
    if start > head.len() + 1 {
        assert(s[start - 1] == field[start - 1 - head.len() - 1]);
    }
    assert(start == head.len() + 1);
    assert(s.skip(start) =~= field);
}

/// A separator-free field that begins a key is that key's first field.
pub proof fn lemma_first_field_of_join(field: Seq<u8>, tail: Seq<u8>)
    requires
        sep_free(field),
    ensures
        first_field(field.push(SEPARATOR) + tail) == field,
        after_first_field(field.push(SEPARATOR) + tail) == Some(tail),
{
    let s = field.push(SEPARATOR) + tail;
    lemma_next_sep(s, 0);
    let end = next_sep(s, 0);
    assert(s[field.len() as int] == SEPARATOR);
    if end < field.len() {
        assert(s[end] == field[end]);
    }
    assert(end == field.len());
    assert(s.take(end) =~= field);
    assert(s.skip(end + 1) =~= tail);
}

proof fn lemma_scalar_sep_free(scalar: u32)
    ensures
        sep_free(encode_scalar(scalar)),
{
    assert((scalar & 0x7F) as u8 != 0xffu8) by (bit_vector);
    assert(0xC0u8 | ((scalar >> 6) & 0x1F) as u8 != 0xffu8) by (bit_vector);
    assert(0xE0u8 | ((scalar >> 12) & 0x0F) as u8 != 0xffu8) by (bit_vector);
    assert(0xF0u8 | ((scalar >> 18) & 0x7) as u8 != 0xffu8) by (bit_vector);
    assert(0x80u8 | (scalar & 0x3F) as u8 != 0xffu8) by (bit_vector);
    assert(0x80u8 | ((scalar >> 6) & 0x3F) as u8 != 0xffu8) by (bit_vector);
    assert(0x80u8 | ((scalar >> 12) & 0x3F) as u8 != 0xffu8) by (bit_vector);
}

/// No string holds the separator byte: UTF-8 never uses it.
pub proof fn lemma_utf8_sep_free(chars: Seq<char>)
    ensures
        sep_free(encode_utf8(chars)),
    decreases chars.len(),
{
    if chars.len() > 0 {
        lemma_scalar_sep_free(chars[0] as u32);
        lemma_utf8_sep_free(chars.drop_first());
        let head = encode_scalar(chars[0] as u32);
        let tail = encode_utf8(chars.drop_first());
        assert forall|i: int| 0 <= i < (head + tail).len() implies (head + tail)[i]
            != SEPARATOR by {
            if i < head.len() {
                assert((head + tail)[i] == head[i]);
            } else {
                assert((head + tail)[i] == tail[i - head.len()]);
            }
        }
    }
}

/// The index of the first separator in `bytes` at or after `from`.
pub fn find_sep(bytes: &[u8], from: usize) -> (r: usize)
    requires
        from <= bytes@.len(),
    ensures
        r == next_sep(bytes@, from as int),
        from <= r <= bytes@.len(),
{
    let mut i: usize = from;
    while i < bytes.len() && bytes[i] != SEPARATOR
        invariant
            from <= i <= bytes@.len(),
            next_sep(bytes@, from as int) == next_sep(bytes@, i as int),
        decreases bytes@.len() - i,
    {
        i = i + 1;
    }
    i
}

/// The bytes of `bytes` before its first separator.
pub fn first_field_of(bytes: &[u8]) -> (r: Vec<u8>)
    ensures
        r@ == first_field(bytes@),
{
    let end = find_sep(bytes, 0);
    copy_range(bytes, 0, end)
}

/// The bytes of `bytes` after its first separator, if it has one.
pub fn after_first_field_of(bytes: &[u8]) -> (r: Option<Vec<u8>>)
    ensures
        r is Some <==> after_first_field(bytes@) is Some,
        r matches Some(rest) ==> after_first_field(bytes@) == Some(rest@),
{
    let end = find_sep(bytes, 0);
    if end < bytes.len() {
        Some(copy_range(bytes, end + 1, bytes.len()))
    } else {
        None
    }
}

/// The bytes of `bytes` after its last separator.
pub fn last_field_of(bytes: &[u8]) -> (r: Vec<u8>)
    ensures
        r@ == last_field(bytes@),
{
    let mut i: usize = bytes.len();
    while i > 0 && bytes[i - 1] != SEPARATOR
        invariant
            i <= bytes@.len(),
            field_start(bytes@, bytes@.len() as int) == field_start(bytes@, i as int),
        decreases i,
    {
        i = i - 1;
    }
    copy_range(bytes, i, bytes.len())
}

/// The bytes of `bytes` before its last separator, if it has one.
pub fn before_last_field_of(bytes: &[u8]) -> (r: Option<Vec<u8>>)
    ensures
        r is Some <==> before_last_field(bytes@) is Some,
        r matches Some(head) ==> before_last_field(bytes@) == Some(head@),
{
    let mut i: usize = bytes.len();
    while i > 0 && bytes[i - 1] != SEPARATOR
        invariant
            i <= bytes@.len(),
            field_start(bytes@, bytes@.len() as int) == field_start(bytes@, i as int),
        decreases i,
    {
        i = i - 1;
    }
    if i > 0 {
        Some(copy_range(bytes, 0, i - 1))
    } else {
        None
    }
}

/// What the counter holds after one more increment: one more than an
/// eight-byte value, and one where nothing readable was stored.
pub open spec fn incremented(old_value: Option<Seq<u8>>) -> nat {
    match old_value {
        Some(bytes) if bytes.len() == 8 => be_value(bytes) + 1,
        _ => 1,
    }
}

/// The next value of a stored counter, encoded as it is stored.
pub fn increment(old_value: Option<&[u8]>) -> (r: Option<Vec<u8>>)
    requires
        incremented(
            match old_value {
                Some(b) => Some(b@),
                None => None,
            },
        ) <= u64::MAX,
    ensures
        r matches Some(v) && v@ == be_bytes(
            incremented(
                match old_value {
                    Some(b) => Some(b@),
                    None => None,
                },
            ),
            8,
        ),
{
    let number: u64 = match old_value {
        Some(bytes) => {
            if bytes.len() == 8 {
                u64_from_be_bytes(bytes) + 1
            } else {
                1
            }
        },
        None => 1,
    };
    Some(u64_to_be_bytes(number))
}

/// Characters that a random identifier is drawn from.
pub open spec fn is_alphanumeric(c: char) -> bool {
    ('a' <= c && c <= 'z') || ('A' <= c && c <= 'Z') || ('0' <= c && c <= '9')
}

/// `s` could have come out of [`random_string`] asked for `length` characters.
pub open spec fn is_random_string(s: Seq<char>, length: nat) -> bool {
    s.len() == length && forall|i: int| 0 <= i < s.len() ==> is_alphanumeric(#[trigger] s[i])
}

/// Draws `length` characters from rand's thread-local generator through its
/// `Alphanumeric` distribution. Trusted: the result has exactly `length`
/// characters, each an ASCII letter or digit; which ones is left open.
#[verifier::external_body]
pub fn random_string(length: usize) -> (r: String)
    ensures
        is_random_string(r@, length as nat),
{
    rand::thread_rng().sample_iter(&rand::distributions::Alphanumeric).take(length).map(
        char::from,
    ).collect()
}

/// Reads the system clock as milliseconds since the Unix epoch. Trusted:
/// nothing is claimed of the value; a clock set before the epoch reads as zero.
#[verifier::external_body]
pub fn millis_since_unix_epoch() -> u64 {
    std::time::SystemTime::now().duration_since(std::time::UNIX_EPOCH).map(
        |d| d.as_millis() as u64,
    ).unwrap_or(0)
}

#[verifier::external_type_specification]
#[verifier::external_body]
pub struct ExTryFromSliceError(std::array::TryFromSliceError);

#[verifier::external_type_specification]
#[verifier::external_body]
pub struct ExFromUtf8Error(std::string::FromUtf8Error);

/// std's `String::push`. Trusted: it appends the character to the string.
pub assume_specification[ String::push ](s: &mut String, c: char)
    ensures
        final(s)@ == old(s)@.push(c),
        ;

        /// std's conversion of a slice into an eight-byte array. Trusted: it
        /// succeeds exactly on slices of eight bytes and then holds those bytes.
        #[verifier::external_body]
        fn array_from_slice(bytes: &[u8]) -> (r: Result<[u8; 8], std::array::TryFromSliceError>)
    ensures
        r is Ok <==> bytes@.len() == 8,
        r matches Ok(a) ==> a@ == bytes@,
{
    <[u8; 8]>::try_from(bytes)
}

/// Parses the bytes into an u64.
pub fn u64_from_bytes(bytes: &[u8]) -> (r: Result<u64, std::array::TryFromSliceError>)
    ensures
        r is Ok <==> bytes@.len() == 8,
        r matches Ok(n) ==> n as nat == be_value(bytes@),
{
    match array_from_slice(bytes) {
        Ok(_) => Ok(u64_from_be_bytes(bytes)),
        Err(e) => Err(e),
    }
}

/// Parses the bytes into a string. This is `String::from_utf8`. Trusted:
/// it succeeds exactly on valid UTF-8 and then holds the decoded characters.
#[verifier::external_body]
pub fn string_from_bytes(bytes: &[u8]) -> (r: Result<String, std::string::FromUtf8Error>)
    ensures
        r is Ok <==> valid_utf8(bytes@),
        r matches Ok(s) ==> s@ == decode_utf8(bytes@),
{
    String::from_utf8(bytes.to_vec())
}


/// The encoded hash that Argon2id, with the `argon2` crate's default
/// parameters, gives a password under a salt, where it gives one.
pub uninterp spec fn argon2id_encoded(password: Seq<u8>, salt: Seq<u8>) -> Seq<char>;

/// Whether an encoded hash verifies a password, as the `argon2` crate
/// decides it; `None` where the crate reports an error, as it does for a
/// hash it cannot decode.
pub uninterp spec fn argon2_verified(encoded: Seq<char>, password: Seq<u8>) -> Option<bool>;

/// `argon2::hash_encoded` with the variant Argon2id and the crate's other
/// defaults; the crate's error is dropped. Trusted: the hash depends on the
/// password and the salt alone, it is never empty, and hashing succeeds
/// where the salt has at least eight bytes and neither the salt nor the
/// password has more than `u32::MAX`.
#[verifier::external_body]
fn hash_encoded(password: &[u8], salt: &[u8]) -> (r: Option<String>)
    ensures
        r matches Some(hash) ==> hash@ == argon2id_encoded(password@, salt@) && hash@.len() > 0,
        8 <= salt@.len() <= u32::MAX && password@.len() <= u32::MAX ==> r is Some,
{
    let hashing_config = argon2::Config { variant: argon2::Variant::Argon2id, ..Default::default() };
    argon2::hash_encoded(password, salt, &hashing_config).ok()
}

/// `argon2::verify_encoded`. Trusted: the answer depends on the encoded
/// hash and the password alone.
#[verifier::external_body]
pub(crate) fn verify_encoded(encoded: &str, password: &[u8]) -> (r: Option<bool>)
    ensures
        r == argon2_verified(encoded@, password@),
{
    argon2::verify_encoded(encoded, password).ok()
}

/// `hash` is what hashing `password` gives under some salt that
/// [`random_string`] could have drawn.
pub open spec fn is_hash_of(hash: Seq<char>, password: Seq<char>) -> bool {
    exists|salt: Seq<char>|
        is_random_string(salt, 32) && hash == #[trigger] argon2id_encoded(
            encode_utf8(password),
            encode_utf8(salt),
        )
}

proof fn lemma_ascii_len(chars: Seq<char>)
    requires
        forall|i: int| 0 <= i < chars.len() ==> is_alphanumeric(#[trigger] chars[i]),
    ensures
        encode_utf8(chars).len() == chars.len(),
    decreases chars.len(),
{
    if chars.len() > 0 {
        let rest = chars.drop_first();
        assert forall|i: int| 0 <= i < rest.len() implies is_alphanumeric(#[trigger] rest[i]) by {
            assert(rest[i] == chars[i + 1]);
        }
        lemma_ascii_len(rest);
        assert(is_alphanumeric(chars[0]));
        assert(has_width_1_encoding(chars[0] as u32));
    }
}

/// Calculate a new hash for the given password, under a fresh random salt
/// of 32 characters. Hashing succeeds for every password of at most
/// `u32::MAX` bytes.
pub fn calculate_hash(password: &str) -> (r: Option<String>)
    ensures
        r matches Some(hash) ==> is_hash_of(hash@, password@) && hash@.len() > 0,
        encode_utf8(password@).len() <= u32::MAX ==> r is Some,
{
    let salt = random_string(32);
    proof {
        lemma_ascii_len(salt@);
    }
    hash_encoded(password.as_bytes(), salt.as_str().as_bytes())
}

} // verus!
