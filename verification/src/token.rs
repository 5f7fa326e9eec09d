//! Random identifiers: meeting ids and participants' edit tokens, and the
//! comparison of a presented token with a stored one.

use rand::distr::Alphanumeric;
use rand::RngExt;
use subtle::ConstantTimeEq;

use vstd::prelude::*;

use crate::text::{digit_char, lemma_digit_char, string_push};

verus! {

broadcast use vstd::string::group_string_axioms;

// ---------------------------------------------------------------------------
// Hex text
// ---------------------------------------------------------------------------

/// The lowercase hex digit of `n` (`0 <= n < 16`).
pub open spec fn hex_digit(n: int) -> char {
    if n < 10 {
        digit_char(n)
    } else {
        (n - 10 + 'a' as int) as char
    }
}

/// Whether `c` is a lowercase hex digit.
pub open spec fn is_lower_hex(c: char) -> bool {
    ('0' <= c <= '9') || ('a' <= c <= 'f')
}

/// The bytes written as two lowercase hex digits each (`{:02x}`).
pub open spec fn hex_lower(bytes: Seq<u8>) -> Seq<char>
    decreases bytes.len(),
{
    if bytes.len() == 0 {
        Seq::empty()
    } else {
        hex_lower(bytes.drop_last()) + seq![
            hex_digit(bytes.last() as int / 16),
            hex_digit(bytes.last() as int % 16),
        ]
    }
}

pub proof fn lemma_hex_lower(bytes: Seq<u8>)
    ensures
        hex_lower(bytes).len() == 2 * bytes.len(),
        forall|i: int| 0 <= i < hex_lower(bytes).len() ==> is_lower_hex(#[trigger] hex_lower(bytes)[i]),
    decreases bytes.len(),
{
    if bytes.len() > 0 {
        let init = bytes.drop_last();
        lemma_hex_lower(init);
        let b = bytes.last() as int;
        lemma_hex_digit(b / 16);
        lemma_hex_digit(b % 16);
        let h = hex_lower(bytes);
        assert forall|i: int| 0 <= i < h.len() implies is_lower_hex(#[trigger] h[i]) by {
            if i < hex_lower(init).len() {
                assert(h[i] == hex_lower(init)[i]);
            }
        }
    }
}

proof fn lemma_hex_digit(n: int)
    requires
        0 <= n < 16,
    ensures
        is_lower_hex(hex_digit(n)),
{
    if n < 10 {
        lemma_digit_char(n);
    }
}

/// The number that a lowercase hex digit stands for.
pub open spec fn hex_value(c: char) -> int {
    if '0' <= c <= '9' {
        c as int - '0' as int
    } else {
        c as int - 'a' as int + 10
    }
}

proof fn lemma_hex_digit_value(n: int)
    requires
        0 <= n < 16,
    ensures
        hex_value(hex_digit(n)) == n,
{
    if n < 10 {
        lemma_digit_char(n);
    }
}

/// Hex text reads back as the bytes it was written from: each byte is the
/// pair of digits at its position, the high half first.
pub proof fn lemma_hex_lower_reads_back(bytes: Seq<u8>)
    ensures
        hex_lower(bytes).len() == 2 * bytes.len(),
        forall|i: int|
            0 <= i < bytes.len() ==> hex_value(hex_lower(bytes)[2 * i]) * 16 + hex_value(
                hex_lower(bytes)[2 * i + 1],
            ) == #[trigger] bytes[i] as int,
    decreases bytes.len(),
{
    lemma_hex_lower(bytes);
    if bytes.len() > 0 {
        let init = bytes.drop_last();
        lemma_hex_lower_reads_back(init);
        let b = bytes.last() as int;
        lemma_hex_digit_value(b / 16);
        lemma_hex_digit_value(b % 16);
        let h = hex_lower(bytes);
        let hi = hex_lower(init);
        assert forall|i: int| 0 <= i < bytes.len() implies hex_value(h[2 * i]) * 16 + hex_value(
            h[2 * i + 1],
        ) == #[trigger] bytes[i] as int by {
            if i < init.len() {
                assert(h[2 * i] == hi[2 * i]);
                assert(h[2 * i + 1] == hi[2 * i + 1]);
                assert(bytes[i] == init[i]);
            } else {
                assert(h[2 * i] == hex_digit(b / 16));
                assert(h[2 * i + 1] == hex_digit(b % 16));
            }
        }
    }
}

/// The hex digit of a nibble.
fn hex_char(n: u8) -> (res: char)
    requires
        n < 16,
    ensures
        res == hex_digit(n as int),
{
    if n < 10 {
        (n + 48u8) as char
    } else {
        (n - 10 + 97u8) as char
    }
}

/// `bytes` as lowercase hex text, two digits per byte.
pub fn hex_encode(bytes: &[u8]) -> (res: String)
    ensures
        res@ == hex_lower(bytes@),
{
    let mut res = String::new();
    let mut i: usize = 0;
    while i < bytes.len()
        invariant
            i <= bytes@.len(),
            res@ == hex_lower(bytes@.take(i as int)),
        decreases bytes@.len() - i,
    {
        let b = bytes[i];
        string_push(&mut res, hex_char(b / 16));
        string_push(&mut res, hex_char(b % 16));
        assert(bytes@.take(i + 1).drop_last() =~= bytes@.take(i as int));
        i = i + 1;
        assert(res@ =~= hex_lower(bytes@.take(i as int)));
    }
    assert(bytes@.take(bytes@.len() as int) =~= bytes@);
    res
}

// ---------------------------------------------------------------------------
// Edit tokens
// ---------------------------------------------------------------------------

/// Sixteen bytes from the thread's random number generator (`rand::rng`,
/// `RngExt::random`). Nothing is promised of their values.
#[verifier::external_body]
fn random_bytes() -> (res: [u8; 16]) {
    rand::rng().random()
}

/// A fresh edit token: sixteen random bytes written as 32 lowercase hex digits.
pub fn generate_token() -> (res: String)
    ensures
        res@.len() == 32,
        forall|i: int| 0 <= i < res@.len() ==> is_lower_hex(#[trigger] res@[i]),
        exists|b: Seq<u8>| b.len() == 16 && res@ == hex_lower(b),
{
    let bytes = random_bytes();
    let res = hex_encode(&bytes);
    proof {
        lemma_hex_lower(bytes@);
    }
    res
}

/// Whether two byte strings are equal, compared in time that does not depend
/// on where they differ (`subtle::ConstantTimeEq::ct_eq` on slices, which is
/// 1 exactly when the lengths and all bytes agree).
#[verifier::external_body]
fn bytes_ct_eq(a: &[u8], b: &[u8]) -> (res: bool)
    ensures
        res == (a@ == b@),
{
    a.ct_eq(b).into()
}

/// Whether a token presented by a browser is the stored one, compared in
/// constant time.
pub fn tokens_match(stored: &str, presented: &str) -> (res: bool)
    ensures
        res == (stored@ == presented@),
{
    let res = bytes_ct_eq(stored.as_bytes(), presented.as_bytes());
    proof {
        vstd::utf8::encode_utf8_decode_utf8(stored@);
        vstd::utf8::encode_utf8_decode_utf8(presented@);
    }
    res
}

// ---------------------------------------------------------------------------
// Meeting ids
// ---------------------------------------------------------------------------

/// Whether `c` is an ASCII letter or digit.
pub open spec fn is_alphanumeric(c: char) -> bool {
    ('0' <= c <= '9') || ('A' <= c <= 'Z') || ('a' <= c <= 'z')
}

/// `n` bytes drawn from `rand`'s `Alphanumeric` distribution on the thread's
/// generator (`rand::rng().sample_iter(Alphanumeric).take(n)`). That
/// distribution yields only the ASCII codes of `A`-`Z`, `a`-`z` and `0`-`9`;
/// which of them come out is not promised.
#[verifier::external_body]
fn random_alphanumeric_bytes(n: usize) -> (res: Vec<u8>)
    ensures
        res@.len() == n,
        forall|i: int| 0 <= i < res@.len() ==> is_alphanumeric(#[trigger] res@[i] as char),
{
    rand::rng().sample_iter(Alphanumeric).take(n).collect()
}

/// The text of drawn bytes, each taken as the character with that code
/// (`char::from`).
pub fn id_from_draws(draws: &[u8]) -> (res: String)
    ensures
        res@ == draws@.map_values(|b: u8| b as char),
{
    let mut res = String::new();
    let mut i: usize = 0;
    while i < draws.len()
        invariant
            i <= draws@.len(),
            res@ == draws@.take(i as int).map_values(|b: u8| b as char),
        decreases draws@.len() - i,
    {
        string_push(&mut res, draws[i] as char);
        i = i + 1;
        assert(res@ =~= draws@.take(i as int).map_values(|b: u8| b as char));
    }
    assert(draws@.take(draws@.len() as int) =~= draws@);
    res
}

/// A fresh meeting id: eight random ASCII letters and digits, the characters
/// of eight draws from the `Alphanumeric` distribution.
pub fn generate_id() -> (res: String)
    ensures
        exists|draws: Seq<u8>|
            draws.len() == 8 && (forall|i: int|
                0 <= i < draws.len() ==> is_alphanumeric(#[trigger] draws[i] as char)) && res@
                == draws.map_values(|b: u8| b as char),
        res@.len() == 8,
        forall|i: int| 0 <= i < res@.len() ==> is_alphanumeric(#[trigger] res@[i]),
{
    let draws = random_alphanumeric_bytes(8);
    let res = id_from_draws(&draws);
    assert forall|i: int| 0 <= i < res@.len() implies is_alphanumeric(#[trigger] res@[i]) by {
        assert(res@[i] == draws@[i] as char);
    }
    res
}

} // verus!
