//! Fingerprints of texts.

use sha2::{Digest, Sha256};
use vstd::prelude::*;
use vstd::string::*;
use vstd::utf8::*;

verus! {

/// The SHA-256 digest of a message.
pub uninterp spec fn sha256_digest(message: Seq<u8>) -> Seq<u8>;

/// `Sha256::digest` of the sha2 crate, by its `Digest` trait: the digest of a
/// message is a function of its bytes alone, and 32 bytes long. Which bytes
/// they are is not said here.
#[verifier::external_body]
fn sha256(message: &Vec<u8>) -> (r: Vec<u8>)
    ensures
        r@ == sha256_digest(message@),
        r@.len() == 32,
{
    Sha256::digest(message).to_vec()
}

/// The character of a hexadecimal digit.
pub open spec fn hex_char(n: int) -> char {
    if n < 10 {
        ('0' as int + n) as char
    } else {
        ('a' as int + n - 10) as char
    }
}

/// Bytes in hexadecimal, two digits a byte.
pub open spec fn hex_text(bytes: Seq<u8>) -> Seq<char>
    decreases bytes.len(),
{
    if bytes.len() == 0 {
        Seq::empty()
    } else {
        hex_text(bytes.drop_last()).push(hex_char(bytes.last() as int / 16)).push(
            hex_char(bytes.last() as int % 16),
        )
    }
}

fn hex_digit(n: u8) -> (r: char)
    requires
        n < 16,
    ensures
        r == hex_char(n as int),
{
    if n < 10 {
        ('0' as u8 + n) as char
    } else {
        ('a' as u8 + (n - 10)) as char
    }
}

fn write_hex(bytes: &Vec<u8>, n: usize) -> (r: String)
    requires
        n <= bytes.len(),
    ensures
        r@ == hex_text(bytes@.take(n as int)),
{
    let mut out = String::new();
    let mut i: usize = 0;
    assert(out@ =~= hex_text(bytes@.take(0)));
    while i < n
        invariant
            i <= n <= bytes.len(),
            out@ == hex_text(bytes@.take(i as int)),
        decreases n - i,
    {
        assert(bytes@.take(i + 1).drop_last() =~= bytes@.take(i as int));
        let byte: u8 = bytes[i];
        out.push(hex_digit(byte / 16));
        out.push(hex_digit(byte % 16));
        i = i + 1;
    }
    out
}

/// The message that three texts make: a purpose, then the texts, with a zero
/// byte after each but the last.
pub open spec fn message_of(
    purpose: Seq<char>,
    first: Seq<char>,
    second: Seq<char>,
    third: Seq<char>,
) -> Seq<u8> {
    encode_utf8(purpose) + seq![0u8] + encode_utf8(first) + seq![0u8] + encode_utf8(second)
        + seq![0u8] + encode_utf8(third)
}

/// The fingerprint of three texts: the first half of the digest of their
/// message, in hexadecimal.
pub open spec fn fingerprint_of(
    purpose: Seq<char>,
    first: Seq<char>,
    second: Seq<char>,
    third: Seq<char>,
) -> Seq<char> {
    hex_text(sha256_digest(message_of(purpose, first, second, third)).take(16))
}

fn push_bytes(out: &mut Vec<u8>, value: &str)
    ensures
        final(out)@ == old(out)@ + encode_utf8(value@),
{
    let bytes = value.as_bytes();
    let mut i: usize = 0;
    let ghost start = out@;
    let ghost all = encode_utf8(value@);
    assert(start + all.take(0) =~= start);
    while i < bytes.len()
        invariant
            i <= bytes.len(),
            bytes@ == all,
            out@ == start + all.take(i as int),
        decreases bytes.len() - i,
    {
        out.push(bytes[i]);
        assert((start + all.take(i as int)).push(all[i as int]) =~= start + all.take(i + 1));
        i = i + 1;
    }
    assert(all.take(all.len() as int) =~= all);
}

/// The message that three texts make.
pub fn build_message(purpose: &str, first: &str, second: &str, third: &str) -> (r: Vec<u8>)
    ensures
        r@ == message_of(purpose@, first@, second@, third@),
{
    let mut message: Vec<u8> = Vec::new();
    push_bytes(&mut message, purpose);
    message.push(0);
    push_bytes(&mut message, first);
    message.push(0);
    push_bytes(&mut message, second);
    message.push(0);
    push_bytes(&mut message, third);
    assert(message@ =~= message_of(purpose@, first@, second@, third@));
    message
}

/// The first half of a digest in hexadecimal.
pub fn half_in_hex(digest: &Vec<u8>) -> (r: String)
    requires
        digest@.len() >= 16,
    ensures
        r@ == hex_text(digest@.take(16)),
        r@.len() == 32,
{
    let out = write_hex(digest, 16);
    proof {
        lemma_hex_length(digest@.take(16));
    }
    out
}

/// The fingerprint of three texts.
pub fn fingerprint(purpose: &str, first: &str, second: &str, third: &str) -> (r: String)
    ensures
        r@ == fingerprint_of(purpose@, first@, second@, third@),
        r@.len() == 32,
{
    let message = build_message(purpose, first, second, third);
    let digest = sha256(&message);
    half_in_hex(&digest)
}

/// Whether a text is free of the zero character.
pub open spec fn without_zero(text: Seq<char>) -> bool {
    forall|i: int| 0 <= i < text.len() ==> text[i] != '\0'
}

proof fn lemma_scalar_bytes(c: u32)
    by (bit_vector)
    requires
        c != 0,
    ensures
        c <= 0x7F ==> leading_byte_width_1(c) != 0,
        leading_byte_width_2(c) != 0,
        leading_byte_width_3(c) != 0,
        leading_byte_width_4(c) != 0,
        last_continuation_byte(c) != 0,
        second_last_continuation_byte(c) != 0,
        third_last_continuation_byte(c) != 0,
{
}

/// The bytes of a text are free of zero where its characters are.
proof fn lemma_no_zero_byte(text: Seq<char>, i: int)
    requires
        without_zero(text),
        0 <= i < encode_utf8(text).len(),
    ensures
        encode_utf8(text)[i] != 0,
    decreases text.len(),
{
    let first = text[0];
    let head = encode_scalar(first as u32);
    let rest = text.drop_first();
    assert(text.len() > 0);
    assert(first as u32 != 0) by {
        assert(first != '\0');
        if first as u32 == 0 {
            char_u32_cast(first, 0);
            char_u32_cast('\0', 0);
        }
    }
    lemma_scalar_bytes(first as u32);
    if i >= head.len() {
        lemma_no_zero_byte(rest, i - head.len());
    }
}

/// A part without a zero byte ends where the first zero byte stands.
proof fn lemma_first_part(left: Seq<u8>, right: Seq<u8>, left_rest: Seq<u8>, right_rest: Seq<u8>)
    requires
        forall|i: int| 0 <= i < left.len() ==> left[i] != 0,
        forall|i: int| 0 <= i < right.len() ==> right[i] != 0,
        left + seq![0u8] + left_rest == right + seq![0u8] + right_rest,
    ensures
        left == right,
        left_rest == right_rest,
{
    let whole = left + seq![0u8] + left_rest;
    let other = right + seq![0u8] + right_rest;
    assert(whole[left.len() as int] == 0);
    assert(other[right.len() as int] == 0);
    if left.len() < right.len() {
        assert(other[left.len() as int] == right[left.len() as int]);
    }
    if right.len() < left.len() {
        assert(whole[right.len() as int] == left[right.len() as int]);
    }
    assert forall|i: int| 0 <= i < left.len() implies left[i] == right[i] by {
        assert(whole[i] == left[i]);
        assert(other[i] == right[i]);
    }
    assert(left =~= right);
    assert(left_rest.len() == whole.len() - left.len() - 1);
    assert(right_rest.len() == other.len() - right.len() - 1);
    assert forall|i: int| 0 <= i < left_rest.len() implies left_rest[i] == right_rest[i] by {
        assert(whole[left.len() + 1 + i] == left_rest[i]);
        assert(other[right.len() + 1 + i] == right_rest[i]);
    }
    assert(left_rest =~= right_rest);
}

/// Different texts make different messages for a purpose, so that what is
/// digested tells them apart, where the zero character stands in none of those
/// that a zero byte follows.
pub proof fn law_messages_differ(
    purpose: Seq<char>,
    left: (Seq<char>, Seq<char>, Seq<char>),
    right: (Seq<char>, Seq<char>, Seq<char>),
)
    requires
        without_zero(left.0) && without_zero(left.1),
        without_zero(right.0) && without_zero(right.1),
        message_of(purpose, left.0, left.1, left.2) == message_of(
            purpose,
            right.0,
            right.1,
            right.2,
        ),
    ensures
        left == right,
{
    broadcast use encode_utf8_decode_utf8;

    let head = encode_utf8(purpose) + seq![0u8];
    let (a, b, c) = (encode_utf8(left.0), encode_utf8(left.1), encode_utf8(left.2));
    let (d, e, f) = (encode_utf8(right.0), encode_utf8(right.1), encode_utf8(right.2));
    let one = a + seq![0u8] + (b + seq![0u8] + c);
    let two = d + seq![0u8] + (e + seq![0u8] + f);
    let whole = message_of(purpose, left.0, left.1, left.2);
    assert(whole =~= head + one);
    assert(message_of(purpose, right.0, right.1, right.2) =~= head + two);
    assert(one =~= whole.skip(head.len() as int));
    assert(two =~= whole.skip(head.len() as int));
    assert forall|i: int| 0 <= i < a.len() implies a[i] != 0 by {
        lemma_no_zero_byte(left.0, i);
    }
    assert forall|i: int| 0 <= i < b.len() implies b[i] != 0 by {
        lemma_no_zero_byte(left.1, i);
    }
    assert forall|i: int| 0 <= i < d.len() implies d[i] != 0 by {
        lemma_no_zero_byte(right.0, i);
    }
    assert forall|i: int| 0 <= i < e.len() implies e[i] != 0 by {
        lemma_no_zero_byte(right.1, i);
    }
    lemma_first_part(a, d, b + seq![0u8] + c, e + seq![0u8] + f);
    lemma_first_part(b, e, c, f);
    assert(decode_utf8(a) == left.0 && decode_utf8(d) == right.0);
    assert(decode_utf8(b) == left.1 && decode_utf8(e) == right.1);
    assert(decode_utf8(c) == left.2 && decode_utf8(f) == right.2);
}

proof fn lemma_hex_length(bytes: Seq<u8>)
    ensures
        hex_text(bytes).len() == 2 * bytes.len(),
    decreases bytes.len(),
{
    if bytes.len() > 0 {
        lemma_hex_length(bytes.drop_last());
    }
}

/// A digit of hexadecimal is one of sixteen characters, each with its own value.
proof fn lemma_hex_char(m: int, n: int)
    requires
        0 <= m < 16,
        0 <= n < 16,
    ensures
        hex_char(m) == hex_char(n) ==> m == n,
        ('0' <= hex_char(n) <= '9') || ('a' <= hex_char(n) <= 'f'),
{
    lemma_hex_value(m);
    lemma_hex_value(n);
}

proof fn lemma_hex_value(n: int)
    requires
        0 <= n < 16,
    ensures
        hex_char(n) as int == if n < 10 {
            48 + n
        } else {
            87 + n
        },
{
}

/// Bytes in hexadecimal tell the bytes apart, and take two digits or small
/// letters for each byte.
pub proof fn law_hex_tells_bytes(left: Seq<u8>, right: Seq<u8>)
    ensures
        hex_text(left).len() == 2 * left.len(),
        hex_text(left) == hex_text(right) ==> left == right,
        forall|i: int|
            0 <= i < hex_text(left).len() ==> {
                let c = #[trigger] hex_text(left)[i];
                ('0' <= c <= '9') || ('a' <= c <= 'f')
            },
    decreases left.len(),
{
    lemma_hex_length(left);
    lemma_hex_length(right);
    if left.len() > 0 {
        let fewer = left.drop_last();
        let a = left.last() as int;
        law_hex_tells_bytes(fewer, right.drop_last());
        lemma_hex_length(fewer);
        lemma_hex_char(a / 16, a / 16);
        lemma_hex_char(a % 16, a % 16);
        let text = hex_text(left);
        assert forall|i: int| 0 <= i < text.len() implies {
            let c = #[trigger] text[i];
            ('0' <= c <= '9') || ('a' <= c <= 'f')
        } by {
            if i < hex_text(fewer).len() {
                assert(text[i] == hex_text(fewer)[i]);
            }
        }
        if hex_text(left) == hex_text(right) {
            assert(right.len() == left.len());
            let b = right.last() as int;
            let n = text.len() as int;
            lemma_hex_length(right.drop_last());
            assert(text[n - 1] == hex_char(a % 16) && hex_text(right)[n - 1] == hex_char(b % 16));
            assert(text[n - 2] == hex_char(a / 16) && hex_text(right)[n - 2] == hex_char(b / 16));
            lemma_hex_char(a % 16, b % 16);
            lemma_hex_char(a / 16, b / 16);
            assert(a == b);
            assert(hex_text(fewer) =~= text.take(n - 2));
            assert(hex_text(right.drop_last()) =~= hex_text(right).take(n - 2));
            assert(left =~= fewer.push(left.last()));
            assert(right =~= right.drop_last().push(right.last()));
        }
    } else {
        if hex_text(left) == hex_text(right) {
            assert(right.len() == 0);
            assert(left =~= right);
        }
    }
}

/// Two fingerprints for one purpose are the same only for the same texts, or
/// where the digests of two different messages begin with the same half.
pub proof fn law_fingerprints_differ(
    purpose: Seq<char>,
    left: (Seq<char>, Seq<char>, Seq<char>),
    right: (Seq<char>, Seq<char>, Seq<char>),
)
    requires
        without_zero(left.0) && without_zero(left.1),
        without_zero(right.0) && without_zero(right.1),
        fingerprint_of(purpose, left.0, left.1, left.2) == fingerprint_of(
            purpose,
            right.0,
            right.1,
            right.2,
        ),
    ensures
        left == right || ({
            let one = message_of(purpose, left.0, left.1, left.2);
            let two = message_of(purpose, right.0, right.1, right.2);
            one != two && sha256_digest(one).take(16) == sha256_digest(two).take(16)
        }),
{
    let one = message_of(purpose, left.0, left.1, left.2);
    let two = message_of(purpose, right.0, right.1, right.2);
    law_hex_tells_bytes(sha256_digest(one).take(16), sha256_digest(two).take(16));
    if one == two {
        law_messages_differ(purpose, left, right);
    }
}

} // verus!
