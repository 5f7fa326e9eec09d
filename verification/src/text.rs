//! Character-level text handling used throughout the library: whitespace
//! trimming, decimal integers, splitting and joining on a separator, and the
//! lexicographic order of strings.

use vstd::prelude::*;

verus! {

broadcast use vstd::string::group_string_axioms;

// ---------------------------------------------------------------------------
// Strings and character vectors
// ---------------------------------------------------------------------------

/// The characters of `s`, in order.
pub fn chars_of(s: &str) -> (res: Vec<char>)
    ensures
        res@ == s@,
{
    let mut res: Vec<char> = Vec::new();
    for c in it: s.chars()
        invariant
            res@ == it.seq().take(it.index() as int),
            it.seq() == s@,
    {
        res.push(c);
    }
    res
}

/// Appends one character to a `String` (`String::push`).
#[verifier::external_body]
pub(crate) fn string_push(s: &mut String, c: char)
    ensures
        final(s)@ == old(s)@.push(c),
{
    s.push(c);
}

/// The string made of the characters of `v`, in order.
pub fn string_of(v: &[char]) -> (res: String)
    ensures
        res@ == v@,
{
    let mut res = String::new();
    let mut i: usize = 0;
    while i < v.len()
        invariant
            i <= v@.len(),
            res@ == v@.take(i as int),
        decreases v@.len() - i,
    {
        string_push(&mut res, v[i]);
        i = i + 1;
        assert(res@ =~= v@.take(i as int));
    }
    assert(v@.take(v@.len() as int) =~= v@);
    res
}

/// Appends the characters of `v` to `s`.
pub fn push_chars(s: &mut String, v: &[char])
    ensures
        final(s)@ == old(s)@ + v@,
{
    let ghost start = s@;
    let mut i: usize = 0;
    while i < v.len()
        invariant
            i <= v@.len(),
            s@ == start + v@.take(i as int),
        decreases v@.len() - i,
    {
        string_push(s, v[i]);
        i = i + 1;
        assert(s@ =~= start + v@.take(i as int));
    }
    assert(v@.take(v@.len() as int) =~= v@);
}

/// Appends all of `src` to the end of `dst`.
pub fn extend_chars(dst: &mut Vec<char>, src: &[char])
    ensures
        final(dst)@ == old(dst)@ + src@,
{
    let ghost start = dst@;
    let mut i: usize = 0;
    while i < src.len()
        invariant
            i <= src@.len(),
            dst@ == start + src@.take(i as int),
        decreases src@.len() - i,
    {
        dst.push(src[i]);
        i = i + 1;
        assert(dst@ =~= start + src@.take(i as int));
    }
    assert(src@.take(src@.len() as int) =~= src@);
}

// ---------------------------------------------------------------------------
// Whitespace
// ---------------------------------------------------------------------------

/// The Unicode `White_Space` characters, which `char::is_whitespace` accepts.
pub open spec fn is_whitespace(c: char) -> bool {
    ||| '\u{9}' <= c <= '\u{d}'
    ||| c == ' '
    ||| c == '\u{85}'
    ||| c == '\u{a0}'
    ||| c == '\u{1680}'
    ||| '\u{2000}' <= c <= '\u{200a}'
    ||| c == '\u{2028}'
    ||| c == '\u{2029}'
    ||| c == '\u{202f}'
    ||| c == '\u{205f}'
    ||| c == '\u{3000}'
}

/// Whether `c` is a Unicode whitespace character (`char::is_whitespace`).
pub fn char_is_whitespace(c: char) -> (res: bool)
    ensures
        res == is_whitespace(c),
{
    ('\u{9}' <= c && c <= '\u{d}') || c == ' ' || c == '\u{85}' || c == '\u{a0}' || c
        == '\u{1680}' || ('\u{2000}' <= c && c <= '\u{200a}') || c == '\u{2028}' || c
        == '\u{2029}' || c == '\u{202f}' || c == '\u{205f}' || c == '\u{3000}'
}

/// `s` without its leading whitespace.
pub open spec fn trim_start(s: Seq<char>) -> Seq<char>
    decreases s.len(),
{
    if s.len() > 0 && is_whitespace(s[0]) {
        trim_start(s.drop_first())
    } else {
        s
    }
}

/// `s` without its trailing whitespace.
pub open spec fn trim_end(s: Seq<char>) -> Seq<char>
    decreases s.len(),
{
    if s.len() > 0 && is_whitespace(s.last()) {
        trim_end(s.drop_last())
    } else {
        s
    }
}

/// `s` without leading and trailing whitespace, as `str::trim` gives it.
pub open spec fn trim(s: Seq<char>) -> Seq<char> {
    trim_end(trim_start(s))
}

proof fn lemma_trim_start_skip(s: Seq<char>, i: int)
    requires
        0 <= i <= s.len(),
        forall|j: int| 0 <= j < i ==> is_whitespace(#[trigger] s[j]),
    ensures
        trim_start(s) == trim_start(s.skip(i)),
    decreases i,
{
    if i > 0 {
        assert(s.skip(1) =~= s.drop_first());
        lemma_trim_start_skip(s.drop_first(), i - 1);
        assert(s.drop_first().skip(i - 1) =~= s.skip(i));
    } else {
        assert(s.skip(0) =~= s);
    }
}

proof fn lemma_trim_end_take(s: Seq<char>, k: int)
    requires
        0 <= k <= s.len(),
        forall|j: int| k <= j < s.len() ==> is_whitespace(#[trigger] s[j]),
    ensures
        trim_end(s) == trim_end(s.take(k)),
    decreases s.len() - k,
{
    if k < s.len() {
        assert(s.take(s.len() - 1) =~= s.drop_last());
        lemma_trim_end_take(s.drop_last(), k);
        assert(s.drop_last().take(k) =~= s.take(k));
    } else {
        assert(s.take(k) =~= s);
    }
}

proof fn lemma_trim_start_index(s: Seq<char>) -> (a: int)
    ensures
        0 <= a <= s.len(),
        trim_start(s) == s.skip(a),
        forall|j: int| 0 <= j < a ==> is_whitespace(#[trigger] s[j]),
        a < s.len() ==> !is_whitespace(s[a]),
    decreases s.len(),
{
    if s.len() > 0 && is_whitespace(s[0]) {
        let a0 = lemma_trim_start_index(s.drop_first());
        assert(s.drop_first().skip(a0) =~= s.skip(a0 + 1));
        assert forall|j: int| 0 <= j < a0 + 1 implies is_whitespace(#[trigger] s[j]) by {
            if j > 0 {
                assert(s[j] == s.drop_first()[j - 1]);
            }
        }
        a0 + 1
    } else {
        assert(s.skip(0) =~= s);
        0
    }
}

proof fn lemma_trim_end_index(s: Seq<char>) -> (b: int)
    ensures
        0 <= b <= s.len(),
        trim_end(s) == s.take(b),
        forall|j: int| b <= j < s.len() ==> is_whitespace(#[trigger] s[j]),
        b > 0 ==> !is_whitespace(s[b - 1]),
    decreases s.len(),
{
    if s.len() > 0 && is_whitespace(s.last()) {
        let b0 = lemma_trim_end_index(s.drop_last());
        assert(s.drop_last().take(b0) =~= s.take(b0));
        assert forall|j: int| b0 <= j < s.len() implies is_whitespace(#[trigger] s[j]) by {
            if j < s.len() - 1 {
                assert(s[j] == s.drop_last()[j]);
            }
        }
        b0
    } else {
        assert(s.take(s.len() as int) =~= s);
        s.len() as int
    }
}

/// Trimming keeps one stretch of the text: everything before and after it is
/// whitespace, and the stretch neither starts nor ends with whitespace.
pub proof fn lemma_trim_shape(s: Seq<char>)
    ensures
        exists|a: int, b: int|
            0 <= a <= b <= s.len() && trim(s) == s.subrange(a, b) && (forall|j: int|
                0 <= j < a ==> is_whitespace(#[trigger] s[j])) && (forall|j: int|
                b <= j < s.len() ==> is_whitespace(#[trigger] s[j])) && (a < b ==> !is_whitespace(
                s[a],
            ) && !is_whitespace(s[b - 1])),
{
    let a = lemma_trim_start_index(s);
    let rest = s.skip(a);
    let k = lemma_trim_end_index(rest);
    let b = a + k;
    assert(rest.take(k) =~= s.subrange(a, b));
    assert forall|j: int| b <= j < s.len() implies is_whitespace(#[trigger] s[j]) by {
        assert(s[j] == rest[j - a]);
    }
    if a < b {
        assert(s[a] == rest[0]);
        assert(s[b - 1] == rest[k - 1]);
    }
    assert(0 <= a <= b <= s.len() && trim(s) == s.subrange(a, b) && (forall|j: int|
        0 <= j < a ==> is_whitespace(#[trigger] s[j])) && (forall|j: int|
        b <= j < s.len() ==> is_whitespace(#[trigger] s[j])) && (a < b ==> !is_whitespace(s[a])
        && !is_whitespace(s[b - 1])));
}

/// The characters of `s` without leading and trailing whitespace.
pub fn trim_chars(s: &[char]) -> (res: Vec<char>)
    ensures
        res@ == trim(s@),
{
    let n = s.len();
    let mut a: usize = 0;
    while a < n && char_is_whitespace(s[a])
        invariant
            a <= n,
            n == s@.len(),
            forall|j: int| 0 <= j < a ==> is_whitespace(#[trigger] s@[j]),
        decreases n - a,
    {
        a = a + 1;
    }
    proof {
        lemma_trim_start_skip(s@, a as int);
    }
    let ghost rest = s@.skip(a as int);
    assert(trim_start(rest) == rest) by {
        if rest.len() > 0 {
            assert(rest[0] == s@[a as int]);
        }
    }
    let mut b: usize = n;
    while b > a && char_is_whitespace(s[b - 1])
        invariant
            a <= b <= n,
            n == s@.len(),
            rest == s@.skip(a as int),
            forall|j: int| b <= j < n ==> is_whitespace(#[trigger] s@[j]),
        decreases b,
    {
        b = b - 1;
    }
    proof {
        lemma_trim_end_take(rest, (b - a) as int);
        let t = rest.take((b - a) as int);
        if t.len() > 0 {
            assert(t.last() == s@[b - 1]);
        }
        assert(trim_end(t) == t);
    }
    let mut res: Vec<char> = Vec::new();
    let mut i = a;
    while i < b
        invariant
            a <= i <= b <= n,
            n == s@.len(),
            res@ == s@.subrange(a as int, i as int),
        decreases b - i,
    {
        res.push(s[i]);
        i = i + 1;
        assert(res@ =~= s@.subrange(a as int, i as int));
    }
    assert(res@ =~= rest.take((b - a) as int));
    res
}

/// `s` without leading and trailing whitespace (`str::trim`).
pub fn trim_str(s: &str) -> (res: String)
    ensures
        res@ == trim(s@),
{
    string_of(&trim_chars(&chars_of(s)))
}

// ---------------------------------------------------------------------------
// Decimal integers
// ---------------------------------------------------------------------------

/// Whether `c` is one of the ASCII digits `0`-`9`.
pub open spec fn is_digit(c: char) -> bool {
    '0' <= c <= '9'
}

/// The numeric value of an ASCII digit.
pub open spec fn digit_value(c: char) -> int {
    c as int - '0' as int
}

/// The character of the decimal digit `d` (`0 <= d < 10`).
pub open spec fn digit_char(d: int) -> char {
    (d + '0' as int) as char
}

/// Whether every character of `s` is an ASCII digit.
pub open spec fn all_digits(s: Seq<char>) -> bool {
    forall|i: int| 0 <= i < s.len() ==> is_digit(#[trigger] s[i])
}

/// The value of a string of digits read in base ten.
pub open spec fn digits_value(s: Seq<char>) -> int
    decreases s.len(),
{
    if s.len() == 0 {
        0
    } else {
        digits_value(s.drop_last()) * 10 + digit_value(s.last())
    }
}

/// The decimal digits of `n`, most significant first, without leading zeros.
pub open spec fn nat_digits(n: nat) -> Seq<char>
    decreases n,
{
    if n < 10 {
        seq![digit_char(n as int)]
    } else {
        nat_digits(n / 10).push(digit_char((n % 10) as int))
    }
}

/// The decimal text of `n`, as `Display` writes an integer: a minus sign for a
/// negative number, then the digits of its magnitude.
pub open spec fn decimal(n: int) -> Seq<char> {
    if n < 0 {
        seq!['-'] + nat_digits((-n) as nat)
    } else {
        nat_digits(n as nat)
    }
}

/// The value that `i64::from_str` gives for `s`: an optional `+` or `-`, then
/// one or more ASCII digits whose value fits in an `i64`; `None` otherwise.
pub open spec fn parse_i64(s: Seq<char>) -> Option<i64> {
    let neg = s.len() > 0 && s[0] == '-';
    let body = if s.len() > 0 && (s[0] == '-' || s[0] == '+') {
        s.drop_first()
    } else {
        s
    };
    let v = if neg {
        -digits_value(body)
    } else {
        digits_value(body)
    };
    if body.len() > 0 && all_digits(body) && i64::MIN <= v <= i64::MAX {
        Some(v as i64)
    } else {
        None
    }
}

/// A run of digits whose value fits reads as that value, bare, after `+`, or
/// negated after `-`; leading zeros change nothing.
pub proof fn lemma_parse_i64_digits(s: Seq<char>)
    requires
        s.len() > 0,
        all_digits(s),
        digits_value(s) <= i64::MAX,
    ensures
        parse_i64(s) == Some(digits_value(s) as i64),
        parse_i64(seq!['+'] + s) == Some(digits_value(s) as i64),
        parse_i64(seq!['-'] + s) == Some((-digits_value(s)) as i64),
{
    lemma_digits_value_nonneg(s);
    assert(is_digit(s[0]));
    assert((seq!['+'] + s).drop_first() =~= s);
    assert((seq!['-'] + s).drop_first() =~= s);
}

/// Text that is empty, a lone sign, or holds anything but digits after an
/// optional sign does not read as a number, and neither do digits whose value
/// does not fit in an `i64`.
pub proof fn lemma_parse_i64_rejects(s: Seq<char>)
    ensures
        s.len() == 0 ==> parse_i64(s) is None,
        s =~= seq!['+'] || s =~= seq!['-'] ==> parse_i64(s) is None,
        (exists|j: int| 0 < j < s.len() && !is_digit(#[trigger] s[j])) ==> parse_i64(s) is None,
        s.len() > 0 && s[0] != '+' && s[0] != '-' && !is_digit(s[0]) ==> parse_i64(s) is None,
        s.len() > 0 && all_digits(s) && digits_value(s) > i64::MAX ==> parse_i64(s) is None,
{
    if exists|j: int| 0 < j < s.len() && !is_digit(#[trigger] s[j]) {
        let j = choose|j: int| 0 < j < s.len() && !is_digit(#[trigger] s[j]);
        if s[0] == '+' || s[0] == '-' {
            assert(s.drop_first()[j - 1] == s[j]);
        }
    }
    if s.len() > 0 && s[0] != '+' && s[0] != '-' && !is_digit(s[0]) {
        assert(!is_digit(s[0]));
    }
    if s.len() > 0 && all_digits(s) {
        assert(is_digit(s[0]));
    }
}

pub proof fn lemma_digits_value_nonneg(s: Seq<char>)
    requires
        all_digits(s),
    ensures
        digits_value(s) >= 0,
    decreases s.len(),
{
    if s.len() > 0 {
        lemma_digits_value_nonneg(s.drop_last());
        assert(is_digit(s[s.len() - 1]));
    }
}

/// Reading more digits never makes the value smaller.
pub proof fn lemma_digits_value_prefix(s: Seq<char>, j: int)
    requires
        all_digits(s),
        0 <= j <= s.len(),
    ensures
        0 <= digits_value(s.take(j)) <= digits_value(s),
    decreases s.len(),
{
    if j == s.len() {
        assert(s.take(j) =~= s);
        lemma_digits_value_nonneg(s);
    } else {
        lemma_digits_value_prefix(s.drop_last(), j);
        assert(s.drop_last().take(j) =~= s.take(j));
        lemma_digits_value_nonneg(s.drop_last());
        assert(is_digit(s[s.len() - 1]));
    }
}

pub proof fn lemma_digit_char(d: int)
    requires
        0 <= d < 10,
    ensures
        is_digit(digit_char(d)),
        digit_value(digit_char(d)) == d,
        digit_char(d) as int == d + 48,
{
}

pub proof fn lemma_nat_digits(n: nat)
    ensures
        nat_digits(n).len() >= 1,
        all_digits(nat_digits(n)),
        digits_value(nat_digits(n)) == n,
    decreases n,
{
    lemma_digit_char((n % 10) as int);
    if n < 10 {
        let s = nat_digits(n);
        assert(s.drop_last() =~= Seq::<char>::empty());
        assert(digits_value(s.drop_last()) == 0);
        assert(s.last() == digit_char(n as int));
    } else {
        lemma_nat_digits(n / 10);
        let s = nat_digits(n);
        assert(s.drop_last() =~= nat_digits(n / 10));
        assert(s.last() == digit_char((n % 10) as int));
        assert(digits_value(s) == digits_value(s.drop_last()) * 10 + digit_value(s.last()));
        assert(digits_value(s) == (n / 10) * 10 + (n % 10) as int);
        assert forall|i: int| 0 <= i < s.len() implies is_digit(#[trigger] s[i]) by {
            if i < s.len() - 1 {
                assert(s[i] == nat_digits(n / 10)[i]);
            }
        }
        assert(n == (n / 10) * 10 + n % 10);
    }
}

/// Parsing the decimal text of an `i64` gives the number back.
proof fn lemma_nat_digits_lead(n: nat)
    requires
        n >= 1,
    ensures
        nat_digits(n)[0] != '0',
    decreases n,
{
    if n < 10 {
        lemma_digit_char(n as int);
    } else {
        lemma_nat_digits_lead(n / 10);
        lemma_nat_digits(n / 10);
        assert(nat_digits(n)[0] == nat_digits(n / 10)[0]);
    }
}

/// The decimal text of a number is its digits without leading zeros (a lone
/// `0` for zero), after a `-` for a negative number, and the digits spell the
/// number's magnitude.
pub proof fn lemma_decimal_canonical(n: int)
    ensures
        n >= 0 ==> all_digits(decimal(n)) && digits_value(decimal(n)) == n,
        n >= 0 ==> decimal(n).len() == 1 || decimal(n)[0] != '0',
        n < 0 ==> decimal(n)[0] == '-' && all_digits(decimal(n).drop_first()) && digits_value(
            decimal(n).drop_first(),
        ) == -n && decimal(n)[1] != '0',
{
    if n >= 0 {
        lemma_nat_digits(n as nat);
        if n >= 1 {
            lemma_nat_digits_lead(n as nat);
        }
    } else {
        let d = nat_digits((-n) as nat);
        lemma_nat_digits((-n) as nat);
        lemma_nat_digits_lead((-n) as nat);
        assert(decimal(n).drop_first() =~= d);
        assert(decimal(n)[1] == d[0]);
    }
}

pub proof fn lemma_parse_decimal(n: i64)
    ensures
        parse_i64(decimal(n as int)) == Some(n),
        decimal(n as int).len() >= 1,
        forall|i: int|
            0 <= i < decimal(n as int).len() ==> #[trigger] decimal(n as int)[i] == '-' || is_digit(
                decimal(n as int)[i],
            ),
{
    let s = decimal(n as int);
    if n < 0 {
        let m = (-(n as int)) as nat;
        lemma_nat_digits(m);
        assert(s.drop_first() =~= nat_digits(m));
        assert forall|i: int| 0 <= i < s.len() implies #[trigger] s[i] == '-' || is_digit(s[i]) by {
            if i > 0 {
                assert(s[i] == nat_digits(m)[i - 1]);
            }
        }
    } else {
        lemma_nat_digits(n as nat);
        assert(s[0] != '-' && s[0] != '+') by {
            assert(is_digit(s[0]));
        }
    }
}

/// Appends the decimal digits of `n` to `out`.
fn push_nat_digits(n: u64, out: &mut Vec<char>)
    ensures
        final(out)@ == old(out)@ + nat_digits(n as nat),
    decreases n,
{
    if n >= 10 {
        push_nat_digits(n / 10, out);
    }
    let d = (n % 10) as u8;
    let c = (d + 48u8) as char;
    assert(c == digit_char((n % 10) as int));
    out.push(c);
    proof {
        if n >= 10 {
            assert(old(out)@ + nat_digits(n as nat) =~= old(out)@ + nat_digits((n / 10) as nat)
                + seq![c]);
        } else {
            assert(old(out)@ + nat_digits(n as nat) =~= old(out)@.push(c));
        }
    }
}

/// The decimal text of `n`.
pub fn i64_to_decimal(n: i64) -> (res: Vec<char>)
    ensures
        res@ == decimal(n as int),
{
    let mut res: Vec<char> = Vec::new();
    let wide = n as i128;
    if wide < 0 {
        res.push('-');
        let m = (-wide) as u64;
        push_nat_digits(m, &mut res);
        assert(res@ =~= decimal(n as int));
    } else {
        push_nat_digits(wide as u64, &mut res);
        assert(res@ =~= decimal(n as int));
    }
    res
}

/// The decimal text of `n`.
pub fn u64_to_decimal(n: u64) -> (res: Vec<char>)
    ensures
        res@ == decimal(n as int),
{
    let mut res: Vec<char> = Vec::new();
    push_nat_digits(n, &mut res);
    assert(res@ =~= decimal(n as int));
    res
}

/// Reads `s` as an `i64`, as `i64::from_str` does.
pub fn parse_i64_chars(s: &[char]) -> (res: Option<i64>)
    ensures
        res == parse_i64(s@),
{
    let n = s.len();
    if n == 0 {
        return None;
    }
    let neg = s[0] == '-';
    let start: usize = if s[0] == '-' || s[0] == '+' {
        1
    } else {
        0
    };
    let ghost body = s@.skip(start as int);
    assert(body =~= (if s@[0] == '-' || s@[0] == '+' {
        s@.drop_first()
    } else {
        s@
    }));
    if start == n {
        return None;
    }
    let bound: u128 = if neg {
        0x8000_0000_0000_0000u128
    } else {
        0x7fff_ffff_ffff_ffffu128
    };
    let mut acc: u128 = 0;
    let mut i: usize = start;
    while i < n
        invariant
            start <= i <= n,
            n == s@.len(),
            body == s@.skip(start as int),
            n > 0,
            neg == (s@[0] == '-'),
            body == (if s@[0] == '-' || s@[0] == '+' {
                s@.drop_first()
            } else {
                s@
            }),
            bound == (if neg {
                0x8000_0000_0000_0000u128
            } else {
                0x7fff_ffff_ffff_ffffu128
            }),
            all_digits(body.take(i - start)),
            acc as int == digits_value(body.take(i - start)),
            acc <= bound,
        decreases n - i,
    {
        let c = s[i];
        let ghost k = (i - start) as int;
        if !('0' <= c && c <= '9') {
            assert(body[k] == c);
            assert(!is_digit(body[k]));
            assert(!all_digits(body));
            assert(s@.len() > 0);
            assert(body.len() > 0);
            assert(parse_i64(s@) == None::<i64>);
            return None;
        }
        let d = (c as u32 - 48u32) as u128;
        assert(body.take(k + 1).drop_last() =~= body.take(k));
        assert(body.take(k + 1).last() == c);
        let next = acc * 10 + d;
        if next > bound {
            proof {
                assert(all_digits(body.take(k + 1)));
                if all_digits(body) {
                    lemma_digits_value_prefix(body, k + 1);
                }
            }
            assert(parse_i64(s@) == None::<i64>);
            return None;
        }
        acc = next;
        i = i + 1;
        assert(all_digits(body.take(i - start))) by {
            assert forall|j: int| 0 <= j < i - start implies is_digit(
                #[trigger] body.take(i - start)[j],
            ) by {
                if j < k {
                    assert(body.take(i - start)[j] == body.take(k)[j]);
                }
            }
        }
    }
    assert(body.take(n - start) =~= body);
    if neg {
        Some((0i128 - acc as i128) as i64)
    } else {
        Some(acc as i64)
    }
}


// ---------------------------------------------------------------------------
// Searching
// ---------------------------------------------------------------------------

/// The index of the first `c` in `s`, if there is one.
pub open spec fn first_index_of(s: Seq<char>, c: char) -> Option<int>
    decreases s.len(),
{
    if s.len() == 0 {
        None
    } else if s[0] == c {
        Some(0)
    } else {
        match first_index_of(s.drop_first(), c) {
            Some(k) => Some(k + 1),
            None => None,
        }
    }
}

pub proof fn lemma_first_index_of(s: Seq<char>, c: char)
    ensures
        match first_index_of(s, c) {
            Some(k) => 0 <= k < s.len() && s[k] == c && forall|j: int|
                0 <= j < k ==> #[trigger] s[j] != c,
            None => forall|j: int| 0 <= j < s.len() ==> #[trigger] s[j] != c,
        },
    decreases s.len(),
{
    if s.len() > 0 && s[0] != c {
        lemma_first_index_of(s.drop_first(), c);
        match first_index_of(s.drop_first(), c) {
            Some(k) => {
                assert forall|j: int| 0 <= j < k + 1 implies #[trigger] s[j] != c by {
                    if j > 0 {
                        assert(s[j] == s.drop_first()[j - 1]);
                    }
                }
            },
            None => {
                assert forall|j: int| 0 <= j < s.len() implies #[trigger] s[j] != c by {
                    if j > 0 {
                        assert(s[j] == s.drop_first()[j - 1]);
                    }
                }
            },
        }
    }
}

/// The first `c` of `a + [c] + b` is the one after `a` when `a` holds none.
pub proof fn lemma_first_index_after(a: Seq<char>, c: char, b: Seq<char>)
    requires
        forall|j: int| 0 <= j < a.len() ==> #[trigger] a[j] != c,
    ensures
        first_index_of(a + seq![c] + b, c) == Some(a.len() as int),
{
    let s = a + seq![c] + b;
    lemma_first_index_of(s, c);
    match first_index_of(s, c) {
        Some(k) => {
            if k < a.len() {
                assert(s[k] == a[k]);
            }
            if k > a.len() {
                assert(s[a.len() as int] == c);
            }
        },
        None => {
            assert(s[a.len() as int] == c);
        },
    }
}

/// The index of the first `c` in `s`, if there is one.
pub fn find_char(s: &[char], c: char) -> (res: Option<usize>)
    ensures
        match res {
            Some(k) => first_index_of(s@, c) == Some(k as int),
            None => first_index_of(s@, c) is None,
        },
{
    proof {
        lemma_first_index_of(s@, c);
    }
    let mut i: usize = 0;
    while i < s.len()
        invariant
            i <= s@.len(),
            forall|j: int| 0 <= j < i ==> #[trigger] s@[j] != c,
            match first_index_of(s@, c) {
                Some(k) => 0 <= k < s@.len() && s@[k] == c && forall|j: int|
                    0 <= j < k ==> #[trigger] s@[j] != c,
                None => forall|j: int| 0 <= j < s@.len() ==> #[trigger] s@[j] != c,
            },
        decreases s@.len() - i,
    {
        if s[i] == c {
            return Some(i);
        }
        i = i + 1;
    }
    None
}

// ---------------------------------------------------------------------------
// Splitting and joining
// ---------------------------------------------------------------------------

/// The pieces of `s` between occurrences of `sep`, as `str::split` yields them
/// (an empty `s` gives one empty piece).
pub open spec fn split_on(s: Seq<char>, sep: char) -> Seq<Seq<char>>
    decreases s.len(),
{
    if s.len() == 0 {
        seq![Seq::<char>::empty()]
    } else {
        let init = split_on(s.drop_last(), sep);
        if s.last() == sep {
            init.push(Seq::<char>::empty())
        } else {
            init.update(init.len() - 1, init.last().push(s.last()))
        }
    }
}

/// The pieces of `parts` with `sep` between each two, as `join` builds them.
pub open spec fn join_with(parts: Seq<Seq<char>>, sep: char) -> Seq<char>
    decreases parts.len(),
{
    if parts.len() == 0 {
        Seq::<char>::empty()
    } else if parts.len() == 1 {
        parts[0]
    } else {
        join_with(parts.drop_last(), sep).push(sep) + parts.last()
    }
}

pub proof fn lemma_split_on_len(s: Seq<char>, sep: char)
    ensures
        split_on(s, sep).len() >= 1,
    decreases s.len(),
{
    if s.len() > 0 {
        lemma_split_on_len(s.drop_last(), sep);
    }
}

/// Appending text without a separator extends the last piece.
pub proof fn lemma_split_on_append(a: Seq<char>, b: Seq<char>, sep: char)
    requires
        forall|j: int| 0 <= j < b.len() ==> #[trigger] b[j] != sep,
    ensures
        split_on(a + b, sep) == split_on(a, sep).update(
            split_on(a, sep).len() - 1,
            split_on(a, sep).last() + b,
        ),
    decreases b.len(),
{
    lemma_split_on_len(a, sep);
    let sa = split_on(a, sep);
    if b.len() == 0 {
        assert(a + b =~= a);
        assert(sa.last() + b =~= sa.last());
        assert(sa.update(sa.len() - 1, sa.last()) =~= sa);
    } else {
        let b0 = b.drop_last();
        lemma_split_on_append(a, b0, sep);
        assert((a + b).drop_last() =~= a + b0);
        assert((a + b).last() == b.last());
        lemma_split_on_len(a + b0, sep);
        assert(b[b.len() - 1] != sep);
        assert(sa.last() + b0 + seq![b.last()] =~= sa.last() + b);
        let s0 = split_on(a + b0, sep);
        assert(s0 == sa.update(sa.len() - 1, sa.last() + b0));
        assert(s0.len() == sa.len());
        assert(s0.last() == sa.last() + b0);
        assert(split_on(a + b, sep) == s0.update(s0.len() - 1, s0.last().push(b.last())));
        assert(s0.last().push(b.last()) =~= sa.last() + b);
        assert(split_on(a + b, sep) =~= sa.update(sa.len() - 1, sa.last() + b));
    }
}

/// Splitting `a`, a separator and `b` gives the pieces of `a` followed by
/// those of `b`.
pub proof fn lemma_split_on_concat(a: Seq<char>, b: Seq<char>, sep: char)
    ensures
        split_on(a.push(sep) + b, sep) == split_on(a, sep) + split_on(b, sep),
    decreases b.len(),
{
    let sa = split_on(a, sep);
    let ab = a.push(sep) + b;
    if b.len() == 0 {
        assert(ab =~= a.push(sep));
        assert(a.push(sep).drop_last() =~= a);
        assert(split_on(b, sep) == seq![Seq::<char>::empty()]);
        assert(sa.push(Seq::<char>::empty()) =~= sa + seq![Seq::<char>::empty()]);
    } else {
        let b0 = b.drop_last();
        lemma_split_on_concat(a, b0, sep);
        lemma_split_on_len(b0, sep);
        assert(ab.drop_last() =~= a.push(sep) + b0);
        assert(ab.last() == b.last());
        let s0 = split_on(b0, sep);
        let init = split_on(a.push(sep) + b0, sep);
        assert(init == sa + s0);
        if b.last() == sep {
            assert(init.push(Seq::<char>::empty()) =~= sa + s0.push(Seq::<char>::empty()));
        } else {
            assert(init.last() == s0.last());
            assert(init.update(init.len() - 1, init.last().push(b.last())) =~= sa + s0.update(
                s0.len() - 1,
                s0.last().push(b.last()),
            ));
        }
    }
}

/// The pieces of a split hold no separator, and joining them with it gives
/// the text back.
pub proof fn lemma_join_split(s: Seq<char>, sep: char)
    ensures
        join_with(split_on(s, sep), sep) == s,
        forall|i: int, j: int|
            0 <= i < split_on(s, sep).len() && 0 <= j < split_on(s, sep)[i].len()
                ==> #[trigger] split_on(s, sep)[i][j] != sep,
    decreases s.len(),
{
    let parts = split_on(s, sep);
    if s.len() == 0 {
        assert(parts == seq![Seq::<char>::empty()]);
    } else {
        let s0 = s.drop_last();
        let c = s.last();
        let init = split_on(s0, sep);
        lemma_join_split(s0, sep);
        lemma_split_on_len(s0, sep);
        if c == sep {
            assert(parts == init.push(Seq::<char>::empty()));
            assert(parts.drop_last() =~= init);
            assert(join_with(parts, sep) =~= s0.push(sep));
            assert(s0.push(sep) =~= s);
            assert forall|i: int, j: int|
                0 <= i < parts.len() && 0 <= j < parts[i].len() implies #[trigger] parts[i][j]
                != sep by {
                assert(parts[i] == init[i]);
            }
        } else {
            let last = init.last().push(c);
            assert(parts == init.update(init.len() - 1, last));
            if init.len() == 1 {
                assert(join_with(init, sep) == init[0]);
                assert(join_with(parts, sep) == last);
            } else {
                assert(parts.drop_last() =~= init.drop_last());
                assert(join_with(parts, sep) == join_with(init.drop_last(), sep).push(sep) + last);
                assert(join_with(init, sep) == join_with(init.drop_last(), sep).push(sep)
                    + init.last());
            }
            assert(s0.push(c) =~= s);
            assert(join_with(parts, sep) =~= s);
            assert forall|i: int, j: int|
                0 <= i < parts.len() && 0 <= j < parts[i].len() implies #[trigger] parts[i][j]
                != sep by {
                if i < init.len() - 1 {
                    assert(parts[i] == init[i]);
                } else if j < init.last().len() {
                    assert(parts[i][j] == init[init.len() - 1][j]);
                }
            }
        }
    }
}

/// Text without the separator is a single piece.
pub proof fn lemma_split_on_single(s: Seq<char>, sep: char)
    requires
        forall|j: int| 0 <= j < s.len() ==> #[trigger] s[j] != sep,
    ensures
        split_on(s, sep) == seq![s],
{
    let empty = Seq::<char>::empty();
    lemma_split_on_append(empty, s, sep);
    assert(empty + s =~= s);
    assert(split_on(empty, sep) == seq![empty]);
    assert(seq![empty].update(0, empty + s) =~= seq![s]);
}

/// Splitting the join of separator-free pieces gives the pieces back.
pub proof fn lemma_split_join(parts: Seq<Seq<char>>, sep: char)
    requires
        parts.len() >= 1,
        forall|i: int, j: int|
            0 <= i < parts.len() && 0 <= j < parts[i].len() ==> #[trigger] parts[i][j] != sep,
    ensures
        split_on(join_with(parts, sep), sep) == parts,
    decreases parts.len(),
{
    let empty = Seq::<char>::empty();
    if parts.len() == 1 {
        lemma_split_on_append(empty, parts[0], sep);
        assert(empty + parts[0] =~= parts[0]);
        assert(split_on(empty, sep) == seq![empty]);
        assert(seq![empty].update(0, empty + parts[0]) =~= parts);
    } else {
        let init = parts.drop_last();
        lemma_split_join(init, sep);
        let j = join_with(init, sep);
        assert(split_on(j.push(sep), sep) == init.push(empty)) by {
            assert(j.push(sep).drop_last() =~= j);
        }
        let last = parts.last();
        assert forall|k: int| 0 <= k < last.len() implies #[trigger] last[k] != sep by {
            assert(last[k] == parts[parts.len() - 1][k]);
        }
        lemma_split_on_append(j.push(sep), last, sep);
        assert(empty + last =~= last);
        assert(init.push(empty).update(init.len() as int, empty + last) =~= parts);
    }
}

/// The character sequences held by a vector of character vectors.
pub open spec fn views(v: Seq<Vec<char>>) -> Seq<Seq<char>> {
    v.map_values(|x: Vec<char>| x@)
}

/// The pieces of `s` between occurrences of `sep`, as `str::split` yields them.
pub fn split_chars(s: &[char], sep: char) -> (res: Vec<Vec<char>>)
    ensures
        views(res@) == split_on(s@, sep),
{
    let mut done: Vec<Vec<char>> = Vec::new();
    let mut cur: Vec<char> = Vec::new();
    let mut i: usize = 0;
    assert(s@.take(0) =~= Seq::<char>::empty());
    assert(views(done@).push(cur@) =~= seq![Seq::<char>::empty()]);
    while i < s.len()
        invariant
            i <= s@.len(),
            split_on(s@.take(i as int), sep) == views(done@).push(cur@),
        decreases s@.len() - i,
    {
        let c = s[i];
        let ghost before = s@.take(i as int);
        assert(s@.take(i + 1).drop_last() =~= before);
        assert(s@.take(i + 1).last() == c);
        if c == sep {
            let piece = cur;
            done.push(piece);
            cur = Vec::new();
            assert(views(done@).push(cur@) =~= split_on(before, sep).push(Seq::<char>::empty()));
        } else {
            let ghost old_cur = cur@;
            cur.push(c);
            assert(views(done@).push(cur@) =~= split_on(before, sep).update(
                split_on(before, sep).len() - 1,
                old_cur.push(c),
            ));
        }
        i = i + 1;
    }
    assert(s@.take(s@.len() as int) =~= s@);
    done.push(cur);
    done
}

/// Every character of a join is the separator or a character of a piece, so
/// a property that these all have holds of the whole join.
pub proof fn lemma_join_chars(parts: Seq<Seq<char>>, sep: char, ok: spec_fn(char) -> bool)
    requires
        ok(sep),
        forall|i: int, k: int| 0 <= i < parts.len() && 0 <= k < parts[i].len() ==> ok(#[trigger] parts[i][k]),
    ensures
        forall|j: int| 0 <= j < join_with(parts, sep).len() ==> ok(#[trigger] join_with(parts, sep)[j]),
    decreases parts.len(),
{
    if parts.len() == 1 {
        assert forall|j: int| 0 <= j < join_with(parts, sep).len() implies ok(
            #[trigger] join_with(parts, sep)[j],
        ) by {
            assert(parts[0][j] == join_with(parts, sep)[j]);
        }
    } else if parts.len() > 1 {
        let init = parts.drop_last();
        assert forall|i: int, k: int| 0 <= i < init.len() && 0 <= k < init[i].len() implies ok(
            #[trigger] init[i][k],
        ) by {
            assert(init[i] == parts[i]);
        }
        lemma_join_chars(init, sep, ok);
        let head = join_with(init, sep).push(sep);
        let last = parts.last();
        let all = join_with(parts, sep);
        assert(all == head + last);
        assert forall|j: int| 0 <= j < all.len() implies ok(#[trigger] all[j]) by {
            if j < head.len() - 1 {
                assert(all[j] == join_with(init, sep)[j]);
            } else if j >= head.len() {
                assert(all[j] == parts[parts.len() - 1][j - head.len()]);
            }
        }
    }
}

// ---------------------------------------------------------------------------
// Lexicographic order
// ---------------------------------------------------------------------------

/// Whether `a` comes strictly before `b` when both are compared character by
/// character, a proper prefix first. This is the order of `String`'s `Ord`.
pub open spec fn lex_lt(a: Seq<char>, b: Seq<char>) -> bool
    decreases a.len(),
{
    if a.len() == 0 {
        b.len() > 0
    } else if b.len() == 0 {
        false
    } else if a[0] != b[0] {
        (a[0] as int) < (b[0] as int)
    } else {
        lex_lt(a.drop_first(), b.drop_first())
    }
}

/// A proper prefix comes first.
pub proof fn lemma_lex_prefix_first(a: Seq<char>, rest: Seq<char>)
    requires
        rest.len() > 0,
    ensures
        lex_lt(a, a + rest),
    decreases a.len(),
{
    if a.len() > 0 {
        assert((a + rest).drop_first() =~= a.drop_first() + rest);
        lemma_lex_prefix_first(a.drop_first(), rest);
    }
}

/// After a common beginning, the text with the smaller character at the first
/// difference comes first, whatever follows.
pub proof fn lemma_lex_first_difference(
    common: Seq<char>,
    x: char,
    y: char,
    s: Seq<char>,
    t: Seq<char>,
)
    requires
        (x as int) < (y as int),
    ensures
        lex_lt(common + seq![x] + s, common + seq![y] + t),
    decreases common.len(),
{
    let a = common + seq![x] + s;
    let b = common + seq![y] + t;
    if common.len() > 0 {
        assert(a.drop_first() =~= common.drop_first() + seq![x] + s);
        assert(b.drop_first() =~= common.drop_first() + seq![y] + t);
        lemma_lex_first_difference(common.drop_first(), x, y, s, t);
    } else {
        assert(a[0] == x);
        assert(b[0] == y);
    }
}

pub proof fn lemma_lex_irreflexive(a: Seq<char>)
    ensures
        !lex_lt(a, a),
    decreases a.len(),
{
    if a.len() > 0 {
        lemma_lex_irreflexive(a.drop_first());
    }
}

pub proof fn lemma_lex_transitive(a: Seq<char>, b: Seq<char>, c: Seq<char>)
    requires
        lex_lt(a, b),
        lex_lt(b, c),
    ensures
        lex_lt(a, c),
    decreases a.len(),
{
    if a.len() > 0 && b.len() > 0 && c.len() > 0 && a[0] == b[0] && b[0] == c[0] {
        lemma_lex_transitive(a.drop_first(), b.drop_first(), c.drop_first());
    }
}

pub proof fn lemma_lex_total(a: Seq<char>, b: Seq<char>)
    requires
        a != b,
    ensures
        lex_lt(a, b) || lex_lt(b, a),
    decreases a.len(),
{
    if a.len() == 0 && b.len() == 0 {
        assert(a =~= b);
    } else if a.len() > 0 && b.len() > 0 && a[0] == b[0] {
        if a.drop_first() == b.drop_first() {
            assert(a =~= seq![a[0]] + a.drop_first());
            assert(b =~= seq![b[0]] + b.drop_first());
        }
        lemma_lex_total(a.drop_first(), b.drop_first());
    } else if a.len() > 0 && b.len() > 0 {
        let x = a[0];
        let y = b[0];
        assert(x != y);
        assert(x as int != y as int);
    }
}

/// Whether `a` comes strictly before `b` in lexicographic order.
pub fn lex_less(a: &[char], b: &[char]) -> (res: bool)
    ensures
        res == lex_lt(a@, b@),
{
    let mut i: usize = 0;
    assert(a@.skip(0) =~= a@ && b@.skip(0) =~= b@);
    while i < a.len() && i < b.len()
        invariant
            i <= a@.len(),
            i <= b@.len(),
            lex_lt(a@, b@) == lex_lt(a@.skip(i as int), b@.skip(i as int)),
        decreases a@.len() - i,
    {
        let ghost sa = a@.skip(i as int);
        let ghost sb = b@.skip(i as int);
        assert(sa[0] == a@[i as int] && sb[0] == b@[i as int]);
        if a[i] != b[i] {
            return a[i] < b[i];
        }
        assert(sa.drop_first() =~= a@.skip(i + 1));
        assert(sb.drop_first() =~= b@.skip(i + 1));
        i = i + 1;
    }
    i < b.len() && i == a.len()
}

/// Whether every piece comes strictly before each piece after it.
pub open spec fn strictly_sorted(s: Seq<Seq<char>>) -> bool {
    forall|i: int, j: int| 0 <= i < j < s.len() ==> lex_lt(#[trigger] s[i], #[trigger] s[j])
}

/// Putting `x` after every element smaller than it keeps a sequence sorted.
pub proof fn lemma_sorted_insert(s: Seq<Seq<char>>, x: Seq<char>, k: int)
    requires
        strictly_sorted(s),
        0 <= k <= s.len(),
        forall|j: int| 0 <= j < k ==> lex_lt(#[trigger] s[j], x),
        k < s.len() ==> !lex_lt(s[k], x),
        !s.contains(x),
    ensures
        strictly_sorted(s.insert(k, x)),
{
    let t = s.insert(k, x);
    if k < s.len() {
        assert(s[k] != x) by {
            assert(s.contains(s[k]));
        }
        lemma_lex_total(s[k], x);
    }
    assert forall|i: int, j: int| 0 <= i < j < t.len() implies lex_lt(
        #[trigger] t[i],
        #[trigger] t[j],
    ) by {
        if j < k {
            assert(t[i] == s[i] && t[j] == s[j]);
        } else if j == k {
            assert(t[i] == s[i] && t[j] == x);
        } else if i < k {
            assert(t[i] == s[i] && t[j] == s[j - 1]);
        } else if i == k {
            assert(t[i] == x && t[j] == s[j - 1]);
            if j - 1 > k {
                lemma_lex_transitive(x, s[k], s[j - 1]);
            }
        } else {
            assert(t[i] == s[i - 1] && t[j] == s[j - 1]);
        }
    }
}

/// Two strictly sorted sequences with the same elements are the same sequence.
pub proof fn lemma_sorted_unique(a: Seq<Seq<char>>, b: Seq<Seq<char>>)
    requires
        strictly_sorted(a),
        strictly_sorted(b),
        forall|x: Seq<char>| a.contains(x) <==> b.contains(x),
    ensures
        a == b,
    decreases a.len(),
{
    if a.len() == 0 {
        if b.len() > 0 {
            assert(b.contains(b[0]));
        }
        assert(a =~= b);
    } else {
        assert(a.contains(a[0]));
        assert(b.len() > 0);
        assert(b.contains(b[0]));
        let k = choose|k: int| 0 <= k < b.len() && b[k] == a[0];
        let j = choose|j: int| 0 <= j < a.len() && a[j] == b[0];
        if k > 0 {
            assert(lex_lt(b[0], b[k]));
            if j > 0 {
                assert(lex_lt(a[0], a[j]));
                lemma_lex_transitive(a[0], b[0], a[0]);
                lemma_lex_irreflexive(a[0]);
            } else {
                lemma_lex_irreflexive(a[0]);
            }
        }
        assert(a[0] == b[0]);
        let a1 = a.drop_first();
        let b1 = b.drop_first();
        assert forall|x: Seq<char>| a1.contains(x) <==> b1.contains(x) by {
            if a1.contains(x) {
                let i = choose|i: int| 0 <= i < a1.len() && a1[i] == x;
                assert(a.contains(x)) by {
                    assert(a[i + 1] == x);
                }
                let m = choose|m: int| 0 <= m < b.len() && b[m] == x;
                if m == 0 {
                    assert(lex_lt(a[0], a[i + 1]));
                    lemma_lex_irreflexive(a[0]);
                }
                assert(b1[m - 1] == x);
            }
            if b1.contains(x) {
                let i = choose|i: int| 0 <= i < b1.len() && b1[i] == x;
                assert(b.contains(x)) by {
                    assert(b[i + 1] == x);
                }
                let m = choose|m: int| 0 <= m < a.len() && a[m] == x;
                if m == 0 {
                    assert(lex_lt(b[0], b[i + 1]));
                    lemma_lex_irreflexive(b[0]);
                }
                assert(a1[m - 1] == x);
            }
        }
        assert(strictly_sorted(a1)) by {
            assert forall|i: int, j: int| 0 <= i < j < a1.len() implies lex_lt(
                #[trigger] a1[i],
                #[trigger] a1[j],
            ) by {
                assert(a1[i] == a[i + 1] && a1[j] == a[j + 1]);
            }
        }
        assert(strictly_sorted(b1)) by {
            assert forall|i: int, j: int| 0 <= i < j < b1.len() implies lex_lt(
                #[trigger] b1[i],
                #[trigger] b1[j],
            ) by {
                assert(b1[i] == b[i + 1] && b1[j] == b[j + 1]);
            }
        }
        lemma_sorted_unique(a1, b1);
        assert(a =~= seq![a[0]] + a1);
        assert(b =~= seq![b[0]] + b1);
    }
}

} // verus!
