//! The `edit_tokens` cookie: which participant rows of a meeting a browser may
//! edit, written as `<pid>_<token>` entries joined by `.`.

use std::collections::HashMap;

use vstd::prelude::*;
use vstd::std_specs::hash::spec_hash_map_iter;
use vstd::std_specs::iter::IteratorSpec;

use crate::text::{
    chars_of, decimal, extend_chars, i64_to_decimal, lemma_sorted_insert, lemma_sorted_unique, lex_less, push_chars, string_push, lex_lt, find_char, first_index_of, is_digit, join_with, lemma_first_index_after, lemma_first_index_of, lemma_join_chars, lemma_split_join, lemma_split_on_append, lemma_split_on_concat, lemma_split_on_single,
    lemma_parse_decimal, parse_i64, parse_i64_chars, split_chars, split_on, string_of, trim, trim_chars, trim_start,
    strictly_sorted, views,
};

verus! {

broadcast use vstd::std_specs::hash::group_hash_axioms;

// ---------------------------------------------------------------------------
// The cookie value
// ---------------------------------------------------------------------------

/// The text `<pid>_<token>` of one cookie entry.
pub open spec fn entry_text(pid: i64, token: Seq<char>) -> Seq<char> {
    decimal(pid as int) + seq!['_'] + token
}

/// What one entry stands for: the participant id read from the text before
/// the first `_`, and the token after it; `None` when there is no `_` or the
/// id does not read as an `i64`.
pub open spec fn parse_entry(e: Seq<char>) -> Option<(i64, Seq<char>)> {
    match first_index_of(e, '_') {
        Some(k) => match parse_i64(e.take(k)) {
            Some(p) => Some((p, e.skip(k + 1))),
            None => None,
        },
        None => None,
    }
}

/// The tokens that a list of entries gives, a later entry for the same id
/// replacing an earlier one.
pub open spec fn tokens_from_entries(entries: Seq<Seq<char>>) -> Map<i64, Seq<char>>
    decreases entries.len(),
{
    if entries.len() == 0 {
        Map::empty()
    } else {
        let m = tokens_from_entries(entries.drop_last());
        match parse_entry(entries.last()) {
            Some((p, t)) => m.insert(p, t),
            None => m,
        }
    }
}

/// The tokens that a cookie value stands for.
pub open spec fn parse_tokens(value: Seq<char>) -> Map<i64, Seq<char>> {
    tokens_from_entries(split_on(value, '.'))
}

/// A token map with each token taken as its characters.
pub open spec fn token_view(m: Map<i64, String>) -> Map<i64, Seq<char>> {
    m.map_values(|s: String| s@)
}

/// The entry texts of all tokens of `m`.
pub open spec fn entry_texts(m: Map<i64, Seq<char>>) -> Set<Seq<char>> {
    m.dom().map(|p: i64| entry_text(p, m[p]))
}

/// Whether `s` lists the entry texts of `m` in strictly increasing order.
pub open spec fn lists_entries_of(s: Seq<Seq<char>>, m: Map<i64, Seq<char>>) -> bool {
    &&& strictly_sorted(s)
    &&& forall|x: Seq<char>| s.contains(x) <==> entry_texts(m).contains(x)
}

/// The cookie value for `m`: its entry texts in increasing order, joined by `.`.
pub open spec fn tokens_value(m: Map<i64, Seq<char>>) -> Seq<char> {
    join_with(choose|s: Seq<Seq<char>>| lists_entries_of(s, m), '.')
}

/// There is at most one strictly sorted list of the entries of `m`.
pub proof fn lemma_lists_entries_unique(s: Seq<Seq<char>>, m: Map<i64, Seq<char>>)
    requires
        lists_entries_of(s, m),
    ensures
        (choose|t: Seq<Seq<char>>| lists_entries_of(t, m)) == s,
{
    let t = choose|t: Seq<Seq<char>>| lists_entries_of(t, m);
    lemma_sorted_unique(s, t);
}

/// Reading an entry back gives the id and the token it was written from.
pub proof fn lemma_parse_entry_text(p: i64, t: Seq<char>)
    ensures
        parse_entry(entry_text(p, t)) == Some((p, t)),
        forall|j: int|
            0 <= j < entry_text(p, t).len() ==> #[trigger] entry_text(p, t)[j] == '.'
                ==> t.contains('.'),
{
    let d = decimal(p as int);
    lemma_parse_decimal(p);
    assert forall|j: int| 0 <= j < d.len() implies #[trigger] d[j] != '_' by {
        assert(d[j] == '-' || is_digit(d[j]));
    }
    lemma_first_index_after(d, '_', t);
    let e = entry_text(p, t);
    assert(e.take(d.len() as int) =~= d);
    assert(e.skip(d.len() as int + 1) =~= t);
    assert forall|j: int| 0 <= j < e.len() && #[trigger] e[j] == '.' implies t.contains('.') by {
        {
            if j < d.len() {
                assert(e[j] == d[j]);
                assert(d[j] == '-' || is_digit(d[j]));
            } else if j > d.len() {
                assert(e[j] == t[j - d.len() - 1]);
            }
        }
    }
}

proof fn lemma_entry_text_listed(m: Map<i64, Seq<char>>, p: i64)
    requires
        m.contains_key(p),
    ensures
        entry_texts(m).contains(entry_text(p, m[p])),
{
    let f = |q: i64| entry_text(q, m[q]);
    assert(f(p) == entry_text(p, m[p]));
    assert(m.dom().contains(p));
}

/// How many leading elements of `s` come before `x`.
spec fn count_before(s: Seq<Seq<char>>, x: Seq<char>) -> int
    decreases s.len(),
{
    if s.len() > 0 && lex_lt(s[0], x) {
        1 + count_before(s.drop_first(), x)
    } else {
        0
    }
}

proof fn lemma_count_before(s: Seq<Seq<char>>, x: Seq<char>)
    ensures
        0 <= count_before(s, x) <= s.len(),
        forall|j: int| 0 <= j < count_before(s, x) ==> lex_lt(#[trigger] s[j], x),
        count_before(s, x) < s.len() ==> !lex_lt(s[count_before(s, x)], x),
    decreases s.len(),
{
    if s.len() > 0 && lex_lt(s[0], x) {
        lemma_count_before(s.drop_first(), x);
        assert forall|j: int| 0 <= j < count_before(s, x) implies lex_lt(#[trigger] s[j], x) by {
            if j > 0 {
                assert(s[j] == s.drop_first()[j - 1]);
            }
        }
    }
}

/// Every finite set of texts can be listed in strictly increasing order.
proof fn lemma_sorted_listing_exists(set: Set<Seq<char>>)
    requires
        set.finite(),
    ensures
        exists|s: Seq<Seq<char>>|
            strictly_sorted(s) && forall|x: Seq<char>| s.contains(x) <==> set.contains(x),
    decreases set.len(),
{
    if set.len() == 0 {
        set.lemma_len0_is_empty();
        let s = Seq::<Seq<char>>::empty();
        assert(strictly_sorted(s) && forall|x: Seq<char>| s.contains(x) <==> set.contains(x));
    } else {
        let x = set.choose();
        assert(set.contains(x)) by {
            if !set.contains(x) {
                set.lemma_len0_is_empty();
            }
        }
        let rest = set.remove(x);
        assert(rest.len() < set.len());
        lemma_sorted_listing_exists(rest);
        let s0 = choose|s: Seq<Seq<char>>|
            strictly_sorted(s) && forall|y: Seq<char>| s.contains(y) <==> rest.contains(y);
        let k = count_before(s0, x);
        lemma_count_before(s0, x);
        lemma_sorted_insert(s0, x, k);
        let s = s0.insert(k, x);
        assert forall|y: Seq<char>| s.contains(y) <==> set.contains(y) by {
            if s.contains(y) {
                let i = choose|i: int| 0 <= i < s.len() && s[i] == y;
                if i < k {
                    assert(s0[i] == y && s0.contains(y));
                } else if i > k {
                    assert(s0[i - 1] == y && s0.contains(y));
                }
            }
            if set.contains(y) {
                if y == x {
                    assert(s[k] == y);
                } else {
                    assert(rest.contains(y));
                    let i = choose|i: int| 0 <= i < s0.len() && s0[i] == y;
                    if i < k {
                        assert(s[i] == y);
                    } else {
                        assert(s[i + 1] == y);
                    }
                }
            }
        }
    }
}

/// Reading back entries that each stand for a token of `m` gives part of `m`:
/// each id read maps to its token in `m`.
proof fn lemma_tokens_from_entries_within(entries: Seq<Seq<char>>, m: Map<i64, Seq<char>>)
    requires
        forall|i: int|
            0 <= i < entries.len() ==> (#[trigger] parse_entry(entries[i]) matches Some(
                (p, t),
            ) && m.contains_key(p) && m[p] == t),
    ensures
        forall|p: i64|
            #[trigger] tokens_from_entries(entries).contains_key(p) ==> m.contains_key(p)
                && tokens_from_entries(entries)[p] == m[p],
        forall|i: int|
            0 <= i < entries.len() ==> tokens_from_entries(entries).contains_key(
                ((#[trigger] parse_entry(entries[i]))->0).0,
            ),
    decreases entries.len(),
{
    if entries.len() > 0 {
        let init = entries.drop_last();
        assert forall|i: int| 0 <= i < init.len() implies (#[trigger] parse_entry(
            init[i],
        ) matches Some((p, t)) && m.contains_key(p) && m[p] == t) by {
            assert(init[i] == entries[i]);
        }
        lemma_tokens_from_entries_within(init, m);
        let e = entries[entries.len() - 1];
        assert(entries.last() == e);
        assert(parse_entry(e) is Some);
        let pt = parse_entry(e)->0;
        assert(m.contains_key(pt.0) && m[pt.0] == pt.1);
        assert(tokens_from_entries(entries) == tokens_from_entries(init).insert(pt.0, pt.1));
        assert forall|i: int| 0 <= i < entries.len() implies tokens_from_entries(
            entries,
        ).contains_key(((#[trigger] parse_entry(entries[i]))->0).0) by {
            if i < entries.len() - 1 {
                assert(init[i] == entries[i]);
            }
        }
    }
}

/// Writing a token map into a cookie value and reading the value back gives
/// the same map, for every map whose tokens hold no `.`.
pub proof fn lemma_tokens_roundtrip(m: Map<i64, Seq<char>>)
    requires
        m.dom().finite(),
        forall|p: i64| #[trigger] m.contains_key(p) ==> !m[p].contains('.'),
    ensures
        parse_tokens(tokens_value(m)) == m,
{
    let texts = entry_texts(m);
    m.dom().lemma_map_finite(|p: i64| entry_text(p, m[p]));
    lemma_sorted_listing_exists(texts);
    let w = choose|s: Seq<Seq<char>>|
        strictly_sorted(s) && forall|x: Seq<char>| s.contains(x) <==> texts.contains(x);
    assert(lists_entries_of(w, m));
    let s = choose|s: Seq<Seq<char>>| lists_entries_of(s, m);
    assert(lists_entries_of(s, m));
    assert forall|i: int| 0 <= i < s.len() implies (#[trigger] parse_entry(s[i]) matches Some(
        (p, t),
    ) && m.contains_key(p) && m[p] == t) by {
        assert(s.contains(s[i]));
        let p = choose|p: i64| m.dom().contains(p) && s[i] == entry_text(p, m[p]);
        lemma_parse_entry_text(p, m[p]);
    }
    if s.len() == 0 {
        let one = seq![Seq::<char>::empty()];
        assert(split_on(Seq::<char>::empty(), '.') == one);
        assert(one.drop_last() =~= Seq::<Seq<char>>::empty());
        assert(first_index_of(Seq::<char>::empty(), '_') is None);
        assert(tokens_from_entries(one.drop_last()) =~= Map::<i64, Seq<char>>::empty());
        assert(tokens_from_entries(one) =~= Map::<i64, Seq<char>>::empty());
        assert forall|p: i64| !m.contains_key(p) by {
            if m.contains_key(p) {
                lemma_entry_text_listed(m, p);
                assert(s.contains(entry_text(p, m[p])));
            }
        }
        assert(m =~= Map::<i64, Seq<char>>::empty());
    } else {
        assert forall|i: int, j: int| 0 <= i < s.len() && 0 <= j < s[i].len() implies #[trigger] s[i][j]
            != '.' by {
            assert(s.contains(s[i]));
            let p = choose|p: i64| m.dom().contains(p) && s[i] == entry_text(p, m[p]);
            lemma_parse_entry_text(p, m[p]);
        }
        lemma_split_join(s, '.');
        lemma_tokens_from_entries_within(s, m);
        let back = tokens_from_entries(s);
        assert forall|p: i64| m.contains_key(p) implies #[trigger] back.contains_key(p) by {
            lemma_entry_text_listed(m, p);
            assert(s.contains(entry_text(p, m[p])));
            let i = choose|i: int| 0 <= i < s.len() && s[i] == entry_text(p, m[p]);
            lemma_parse_entry_text(p, m[p]);
            assert((parse_entry(s[i])->0).0 == p);
        }
        assert(back =~= m);
    }
}

/// An empty cookie value holds no tokens.
pub proof fn lemma_parse_tokens_empty()
    ensures
        parse_tokens(Seq::<char>::empty()) == Map::<i64, Seq<char>>::empty(),
{
    let one = seq![Seq::<char>::empty()];
    assert(split_on(Seq::<char>::empty(), '.') == one);
    assert(one.drop_last() =~= Seq::<Seq<char>>::empty());
    assert(first_index_of(Seq::<char>::empty(), '_') is None);
    assert(one.last() == Seq::<char>::empty());
    assert(parse_entry(one.last()) is None);
    assert(tokens_from_entries(one.drop_last()) =~= Map::<i64, Seq<char>>::empty());
    assert(tokens_from_entries(one) =~= Map::<i64, Seq<char>>::empty());
}

/// An entry added at the end of a cookie value sets that participant's token,
/// replacing any earlier one, and leaves the other tokens as they were.
pub proof fn lemma_parse_tokens_later_entry_wins(value: Seq<char>, pid: i64, token: Seq<char>)
    requires
        !token.contains('.'),
    ensures
        parse_tokens(value + seq!['.'] + entry_text(pid, token)) == parse_tokens(value).insert(
            pid,
            token,
        ),
{
    let e = entry_text(pid, token);
    lemma_parse_entry_text(pid, token);
    assert forall|j: int| 0 <= j < e.len() implies #[trigger] e[j] != '.' by {
        if e[j] == '.' {
            assert(token.contains('.'));
        }
    }
    lemma_split_on_single(e, '.');
    lemma_split_on_concat(value, e, '.');
    assert(value + seq!['.'] + e =~= value.push('.') + e);
    let parts = split_on(value, '.') + seq![e];
    assert(parts.drop_last() =~= split_on(value, '.'));
    assert(parts.last() == e);
}

/// An entry that does not read as `<pid>_<token>` is passed over.
pub proof fn lemma_parse_tokens_skips_malformed(value: Seq<char>, entry: Seq<char>)
    requires
        !entry.contains('.'),
        parse_entry(entry) is None,
    ensures
        parse_tokens(value + seq!['.'] + entry) == parse_tokens(value),
{
    assert forall|j: int| 0 <= j < entry.len() implies #[trigger] entry[j] != '.' by {
        if entry[j] == '.' {
            assert(entry.contains('.'));
        }
    }
    lemma_split_on_single(entry, '.');
    lemma_split_on_concat(value, entry, '.');
    assert(value + seq!['.'] + entry =~= value.push('.') + entry);
    let parts = split_on(value, '.') + seq![entry];
    assert(parts.drop_last() =~= split_on(value, '.'));
    assert(parts.last() == entry);
}

/// The characters that cookie values of lowercase-hex tokens are made of: digits,
/// `a`-`f`, `_`, `.`, and `-` for a negative id. All are safe in a cookie.
pub open spec fn cookie_safe(c: char) -> bool {
    ('0' <= c <= '9') || ('a' <= c <= 'f') || c == '_' || c == '.' || c == '-'
}

/// The cookie value of tokens written in lowercase hex holds only
/// cookie-safe characters.
pub proof fn lemma_tokens_value_cookie_safe(m: Map<i64, Seq<char>>)
    requires
        m.dom().finite(),
        forall|p: i64, k: int|
            #![trigger m[p][k]]
            m.contains_key(p) && 0 <= k < m[p].len() ==> ('0' <= m[p][k] <= '9') || ('a' <= m[p][k]
                <= 'f'),
    ensures
        forall|j: int|
            0 <= j < tokens_value(m).len() ==> cookie_safe(#[trigger] tokens_value(m)[j]),
{
    let texts = entry_texts(m);
    m.dom().lemma_map_finite(|p: i64| entry_text(p, m[p]));
    lemma_sorted_listing_exists(texts);
    let w = choose|s: Seq<Seq<char>>|
        strictly_sorted(s) && forall|x: Seq<char>| s.contains(x) <==> texts.contains(x);
    assert(lists_entries_of(w, m));
    let s = choose|s: Seq<Seq<char>>| lists_entries_of(s, m);
    assert(lists_entries_of(s, m));
    let ok = |c: char| cookie_safe(c);
    assert forall|i: int, k: int| 0 <= i < s.len() && 0 <= k < s[i].len() implies ok(
        #[trigger] s[i][k],
    ) by {
        assert(s.contains(s[i]));
        let p = choose|p: i64| m.dom().contains(p) && s[i] == entry_text(p, m[p]);
        let d = decimal(p as int);
        lemma_parse_decimal(p);
        if k < d.len() {
            assert(s[i][k] == d[k]);
            assert(d[k] == '-' || is_digit(d[k]));
        } else if k > d.len() {
            assert(s[i][k] == m[p][k - d.len() - 1]);
        }
    }
    lemma_join_chars(s, '.', ok);
}

/// Records the edit token of a newly added participant among the tokens that
/// the browser will be given.
pub fn record_token(tokens: &mut HashMap<i64, String>, pid: i64, token: String)
    ensures
        final(tokens)@ == old(tokens)@.insert(pid, token),
        token_view(final(tokens)@) == token_view(old(tokens)@).insert(pid, token@),
{
    let ghost t = token@;
    tokens.insert(pid, token);
    assert(token_view(tokens@) =~= token_view(old(tokens)@).insert(pid, t));
}

/// The tokens of a cookie value, as the browser sent it.
pub fn parse_edit_tokens_value(value: &str) -> (res: HashMap<i64, String>)
    ensures
        token_view(res@) == parse_tokens(value@),
{
    if value.is_empty() {
        let ghost one = seq![Seq::<char>::empty()];
        assert(split_on(value@, '.') =~= one);
        assert(one.drop_last() =~= Seq::<Seq<char>>::empty());
        assert(one.last() == Seq::<char>::empty());
        assert(first_index_of(Seq::<char>::empty(), '_') is None);
        assert(parse_entry(one.last()) is None);
        assert(tokens_from_entries(one.drop_last()) =~= Map::<i64, Seq<char>>::empty());
        assert(tokens_from_entries(one) =~= Map::<i64, Seq<char>>::empty());
        let res = HashMap::new();
        assert(token_view(res@) =~= Map::<i64, Seq<char>>::empty());
        return res;
    }
    let chars = chars_of(value);
    parse_tokens_chars(&chars)
}

/// The tokens of a cookie value given as characters.
fn parse_tokens_chars(value: &[char]) -> (res: HashMap<i64, String>)
    ensures
        token_view(res@) == parse_tokens(value@),
{
    let pieces = split_chars(value, '.');
    let mut res: HashMap<i64, String> = HashMap::new();
    let mut i: usize = 0;
    assert(views(pieces@).take(0) =~= Seq::<Seq<char>>::empty());
    assert(token_view(res@) =~= Map::<i64, Seq<char>>::empty());
    while i < pieces.len()
        invariant
            i <= pieces@.len(),
            views(pieces@) == split_on(value@, '.'),
            token_view(res@) == tokens_from_entries(views(pieces@).take(i as int)),
        decreases pieces@.len() - i,
    {
        let ghost done = views(pieces@).take(i as int);
        assert(views(pieces@).take(i + 1).drop_last() =~= done);
        assert(views(pieces@).take(i + 1).last() == pieces@[i as int]@);
        match parse_entry_chars(&pieces[i]) {
            Some((pid, token)) => {
                let tok = string_of(&token);
                let ghost before = res@;
                res.insert(pid, tok);
                assert(token_view(res@) =~= token_view(before).insert(pid, token@));
            },
            None => {},
        }
        i = i + 1;
    }
    assert(views(pieces@).take(pieces@.len() as int) =~= views(pieces@));
    res
}

// ---------------------------------------------------------------------------
// The Cookie and Set-Cookie headers
// ---------------------------------------------------------------------------

/// The start of the `edit_tokens` cookie in a header: its name and `=`.
pub open spec fn cookie_prefix() -> Seq<char> {
    "edit_tokens="@
}

/// Whether `s` begins with `prefix`.
pub open spec fn starts_with(s: Seq<char>, prefix: Seq<char>) -> bool {
    prefix.len() <= s.len() && s.take(prefix.len() as int) == prefix
}

/// The value of the first of the `;`-separated cookies that, once trimmed,
/// starts with `edit_tokens=`.
pub open spec fn edit_tokens_cookie(pieces: Seq<Seq<char>>) -> Option<Seq<char>>
    decreases pieces.len(),
{
    if pieces.len() == 0 {
        None
    } else if starts_with(trim(pieces[0]), cookie_prefix()) {
        Some(trim(pieces[0]).skip(cookie_prefix().len() as int))
    } else {
        edit_tokens_cookie(pieces.drop_first())
    }
}

/// The tokens that a `Cookie` header carries: those of its `edit_tokens`
/// cookie, none when there is no such cookie.
pub open spec fn header_tokens(header: Seq<char>) -> Map<i64, Seq<char>> {
    match edit_tokens_cookie(split_on(header, ';')) {
        Some(v) => parse_tokens(v),
        None => Map::empty(),
    }
}

/// Whether `s` begins with `prefix`.
fn chars_start_with(s: &[char], prefix: &[char]) -> (res: bool)
    ensures
        res == starts_with(s@, prefix@),
{
    if prefix.len() > s.len() {
        return false;
    }
    let mut i: usize = 0;
    while i < prefix.len()
        invariant
            prefix@.len() <= s@.len(),
            i <= prefix@.len(),
            forall|j: int| 0 <= j < i ==> s@[j] == prefix@[j],
        decreases prefix@.len() - i,
    {
        if s[i] != prefix[i] {
            assert(s@.take(prefix@.len() as int)[i as int] != prefix@[i as int]);
            return false;
        }
        i = i + 1;
    }
    assert(s@.take(prefix@.len() as int) =~= prefix@);
    true
}

/// The edit tokens that the browser sent in its `Cookie` header (the header's
/// value, or an empty string when the request has none).
pub fn parse_edit_tokens(cookie_header: &str) -> (res: HashMap<i64, String>)
    ensures
        token_view(res@) == header_tokens(cookie_header@),
{
    let header = chars_of(cookie_header);
    let prefix = chars_of("edit_tokens=");
    let pieces = split_chars(&header, ';');
    let ghost all = views(pieces@);
    let mut i: usize = 0;
    assert(all.skip(0) =~= all);
    while i < pieces.len()
        invariant
            i <= pieces@.len(),
            all == views(pieces@),
            all == split_on(cookie_header@, ';'),
            prefix@ == cookie_prefix(),
            edit_tokens_cookie(all) == edit_tokens_cookie(all.skip(i as int)),
        decreases pieces@.len() - i,
    {
        let ghost rest = all.skip(i as int);
        assert(rest[0] == pieces@[i as int]@);
        assert(rest.drop_first() =~= all.skip(i + 1));
        let piece = trim_chars(&pieces[i]);
        if chars_start_with(&piece, &prefix) {
            let mut value: Vec<char> = Vec::new();
            let mut j: usize = prefix.len();
            while j < piece.len()
                invariant
                    prefix@.len() <= j <= piece@.len(),
                    value@ == piece@.subrange(prefix@.len() as int, j as int),
                decreases piece@.len() - j,
            {
                value.push(piece[j]);
                j = j + 1;
                assert(value@ =~= piece@.subrange(prefix@.len() as int, j as int));
            }
            assert(value@ =~= piece@.skip(prefix@.len() as int));
            return parse_tokens_chars(&value);
        }
        i = i + 1;
    }
    assert(all.skip(pieces@.len() as int) =~= Seq::<Seq<char>>::empty());
    let res = HashMap::new();
    assert(token_view(res@) =~= Map::<i64, Seq<char>>::empty());
    res
}

/// The `edit_tokens` cookie `edit_tokens=<value>` for a map of lowercase-hex
/// tokens holds no `;` and no surrounding whitespace, and its value reads back
/// as the map.
proof fn lemma_cookie_piece(m: Map<i64, Seq<char>>)
    requires
        m.dom().finite(),
        forall|p: i64, k: int|
            #![trigger m[p][k]]
            m.contains_key(p) && 0 <= k < m[p].len() ==> ('0' <= m[p][k] <= '9') || ('a' <= m[p][k]
                <= 'f'),
    ensures
        forall|j: int|
            0 <= j < (cookie_prefix() + tokens_value(m)).len() ==> #[trigger] (cookie_prefix()
                + tokens_value(m))[j] != ';',
        split_on(cookie_prefix() + tokens_value(m), ';') == seq![cookie_prefix() + tokens_value(m)],
        trim_start(cookie_prefix() + tokens_value(m)) == cookie_prefix() + tokens_value(m),
        trim(cookie_prefix() + tokens_value(m)) == cookie_prefix() + tokens_value(m),
        starts_with(cookie_prefix() + tokens_value(m), cookie_prefix()),
        (cookie_prefix() + tokens_value(m)).skip(cookie_prefix().len() as int) == tokens_value(m),
        parse_tokens(tokens_value(m)) == m,
{
    reveal_strlit("edit_tokens=");
    let prefix = cookie_prefix();
    let value = tokens_value(m);
    let h = prefix + value;
    lemma_tokens_value_cookie_safe(m);
    assert(prefix.len() == 12);
    assert forall|j: int| 0 <= j < h.len() implies #[trigger] h[j] != ';' by {
        if j >= prefix.len() {
            assert(h[j] == value[j - prefix.len()]);
            assert(cookie_safe(value[j - prefix.len()]));
        }
    }
    lemma_split_on_single(h, ';');
    assert(trim_start(h) == h) by {
        assert(h[0] == 'e');
    }
    assert(trim(h) == h) by {
        if value.len() > 0 {
            assert(h.last() == value[value.len() - 1]);
            assert(cookie_safe(value[value.len() - 1]));
        } else {
            assert(h.last() == '=');
        }
    }
    assert(h.take(12) =~= prefix);
    assert(h.skip(12) =~= value);
    assert forall|p: i64| #[trigger] m.contains_key(p) implies !m[p].contains('.') by {
        if m[p].contains('.') {
            let k = choose|k: int| 0 <= k < m[p].len() && m[p][k] == '.';
            assert(('0' <= m[p][k] <= '9') || ('a' <= m[p][k] <= 'f'));
        }
    }
    lemma_tokens_roundtrip(m);
}

/// A browser that sends back, as its `Cookie` header, the `edit_tokens`
/// cookie it was given gets the same tokens read from it, for every map of
/// lowercase-hex tokens.
pub proof fn lemma_cookie_header_roundtrip(m: Map<i64, Seq<char>>)
    requires
        m.dom().finite(),
        forall|p: i64, k: int|
            #![trigger m[p][k]]
            m.contains_key(p) && 0 <= k < m[p].len() ==> ('0' <= m[p][k] <= '9') || ('a' <= m[p][k]
                <= 'f'),
    ensures
        header_tokens(cookie_prefix() + tokens_value(m)) == m,
{
    let h = cookie_prefix() + tokens_value(m);
    lemma_cookie_piece(m);
    assert(seq![h][0] == h);
}

/// The cookies of a header are its `;`-separated pieces, read from the first:
/// when the first piece, trimmed, is the `edit_tokens` cookie, the tokens are
/// read from its value alone, whatever cookies follow it.
pub proof fn lemma_header_first_cookie_wins(first: Seq<char>, rest: Seq<char>)
    requires
        forall|j: int| 0 <= j < first.len() ==> #[trigger] first[j] != ';',
        starts_with(trim(first), cookie_prefix()),
    ensures
        header_tokens(first + seq![';'] + rest) == parse_tokens(
            trim(first).skip(cookie_prefix().len() as int),
        ),
{
    lemma_split_on_concat(first, rest, ';');
    lemma_split_on_single(first, ';');
    assert(first + seq![';'] + rest =~= first.push(';') + rest);
    let pieces = seq![first] + split_on(rest, ';');
    assert(pieces[0] == first);
}

/// A first cookie other than `edit_tokens` is passed over: the header reads as
/// the cookies after it.
pub proof fn lemma_header_skips_other_cookie(first: Seq<char>, rest: Seq<char>)
    requires
        forall|j: int| 0 <= j < first.len() ==> #[trigger] first[j] != ';',
        !starts_with(trim(first), cookie_prefix()),
    ensures
        header_tokens(first + seq![';'] + rest) == header_tokens(rest),
{
    lemma_split_on_concat(first, rest, ';');
    lemma_split_on_single(first, ';');
    assert(first + seq![';'] + rest =~= first.push(';') + rest);
    let pieces = seq![first] + split_on(rest, ';');
    assert(pieces[0] == first);
    assert(pieces.drop_first() =~= split_on(rest, ';'));
}

/// The tokens of an `edit_tokens` cookie sent first are read in full, and the
/// cookies after it (`; theme=dark` and the like) add nothing to them.
pub proof fn lemma_cookie_header_then_others(m: Map<i64, Seq<char>>, rest: Seq<char>)
    requires
        m.dom().finite(),
        forall|p: i64, k: int|
            #![trigger m[p][k]]
            m.contains_key(p) && 0 <= k < m[p].len() ==> ('0' <= m[p][k] <= '9') || ('a' <= m[p][k]
                <= 'f'),
    ensures
        header_tokens(cookie_prefix() + tokens_value(m) + seq![';'] + rest) == m,
{
    lemma_cookie_piece(m);
    lemma_header_first_cookie_wins(cookie_prefix() + tokens_value(m), rest);
}

/// An `edit_tokens` cookie that follows another cookie, after `; `, is found
/// and read in full.
pub proof fn lemma_cookie_header_after_other(other: Seq<char>, m: Map<i64, Seq<char>>)
    requires
        forall|j: int| 0 <= j < other.len() ==> #[trigger] other[j] != ';',
        !starts_with(trim(other), cookie_prefix()),
        m.dom().finite(),
        forall|p: i64, k: int|
            #![trigger m[p][k]]
            m.contains_key(p) && 0 <= k < m[p].len() ==> ('0' <= m[p][k] <= '9') || ('a' <= m[p][k]
                <= 'f'),
    ensures
        header_tokens(other + seq![';', ' '] + cookie_prefix() + tokens_value(m)) == m,
{
    let h = cookie_prefix() + tokens_value(m);
    let second = seq![' '] + h;
    assert(header_tokens(second) == m) by {
        lemma_cookie_piece(m);
        assert forall|j: int| 0 <= j < second.len() implies #[trigger] second[j] != ';' by {
            if j > 0 {
                assert(second[j] == h[j - 1]);
            }
        }
        lemma_split_on_single(second, ';');
        assert(second.drop_first() =~= h);
        assert(trim_start(second) == trim_start(h));
        assert(trim(second) == h);
        assert(seq![second][0] == second);
        assert(edit_tokens_cookie(seq![second]) == Some(tokens_value(m)));
    }
    assert(other + seq![';', ' '] + cookie_prefix() + tokens_value(m) =~= other + seq![';']
        + second);
    lemma_header_skips_other_cookie(other, second);
}

/// The text after `edit_tokens=` in the `Set-Cookie` header for a meeting.
pub open spec fn cookie_attributes(meeting_id: Seq<char>) -> Seq<char> {
    "; Path=/m/"@ + meeting_id + "; Max-Age=7776000; HttpOnly; SameSite=Lax"@
}

/// The parts of a `Set-Cookie` header, in order: `edit_tokens=`, the cookie
/// value, `; Path=/m/`, the meeting id character for character (so that the
/// browser sends the cookie back on that meeting's pages), then the lifetime
/// and flags.
pub proof fn lemma_set_cookie_layout(value: Seq<char>, meeting_id: Seq<char>)
    ensures
        (cookie_prefix() + value + cookie_attributes(meeting_id)).len() == 12 + value.len() + 10
            + meeting_id.len() + 41,
        (cookie_prefix() + value + cookie_attributes(meeting_id)).take(12) == "edit_tokens="@,
        (cookie_prefix() + value + cookie_attributes(meeting_id)).subrange(12, 12 + value.len() as int)
            == value,
        (cookie_prefix() + value + cookie_attributes(meeting_id)).subrange(
            12 + value.len() as int,
            22 + value.len() as int,
        ) == "; Path=/m/"@,
        (cookie_prefix() + value + cookie_attributes(meeting_id)).subrange(
            22 + value.len() as int,
            22 + value.len() + meeting_id.len() as int,
        ) == meeting_id,
        (cookie_prefix() + value + cookie_attributes(meeting_id)).skip(
            22 + value.len() + meeting_id.len() as int,
        ) == "; Max-Age=7776000; HttpOnly; SameSite=Lax"@,
{
    reveal_strlit("edit_tokens=");
    reveal_strlit("; Path=/m/");
    reveal_strlit("; Max-Age=7776000; HttpOnly; SameSite=Lax");
    let path = "; Path=/m/"@;
    let flags = "; Max-Age=7776000; HttpOnly; SameSite=Lax"@;
    let h = cookie_prefix() + value + cookie_attributes(meeting_id);
    let n = value.len() as int;
    let k = meeting_id.len() as int;
    assert(h =~= cookie_prefix() + value + path + meeting_id + flags);
    assert(h.take(12) =~= cookie_prefix());
    assert(h.subrange(12, 12 + n) =~= value);
    assert(h.subrange(12 + n, 22 + n) =~= path);
    assert(h.subrange(22 + n, 22 + n + k) =~= meeting_id);
    assert(h.skip(22 + n + k) =~= flags);
}

/// The cookie that a `Set-Cookie` header sets is its text up to the first `;`:
/// exactly `edit_tokens=` and the value, which, sent back as a `Cookie`
/// header, reads as the tokens that were written.
pub proof fn lemma_set_cookie_sent_back(m: Map<i64, Seq<char>>, meeting_id: Seq<char>)
    requires
        m.dom().finite(),
        forall|p: i64, k: int|
            #![trigger m[p][k]]
            m.contains_key(p) && 0 <= k < m[p].len() ==> ('0' <= m[p][k] <= '9') || ('a' <= m[p][k]
                <= 'f'),
    ensures
        split_on(cookie_prefix() + tokens_value(m) + cookie_attributes(meeting_id), ';')[0]
            == cookie_prefix() + tokens_value(m),
        header_tokens(
            split_on(cookie_prefix() + tokens_value(m) + cookie_attributes(meeting_id), ';')[0],
        ) == m,
{
    reveal_strlit("; Path=/m/");
    let h = cookie_prefix() + tokens_value(m);
    let attrs = cookie_attributes(meeting_id);
    let tail = attrs.drop_first();
    assert(attrs[0] == ';');
    assert(h + attrs =~= h.push(';') + tail);
    lemma_cookie_piece(m);
    lemma_split_on_concat(h, tail, ';');
    assert((seq![h] + split_on(tail, ';'))[0] == h);
    lemma_cookie_header_roundtrip(m);
}

/// The `Set-Cookie` header that hands the browser its edit tokens: scoped to
/// the meeting's path, kept for 90 days, hidden from scripts.
pub fn build_set_cookie_header(meeting_id: &str, tokens: &HashMap<i64, String>) -> (res: String)
    ensures
        res@ == cookie_prefix() + tokens_value(token_view(tokens@)) + cookie_attributes(
            meeting_id@,
        ),
{
    let value = build_edit_tokens_value(tokens);
    let mut res = String::new();
    push_chars(&mut res, &chars_of("edit_tokens="));
    push_chars(&mut res, &chars_of(value.as_str()));
    push_chars(&mut res, &chars_of("; Path=/m/"));
    push_chars(&mut res, &chars_of(meeting_id));
    push_chars(&mut res, &chars_of("; Max-Age=7776000; HttpOnly; SameSite=Lax"));
    assert(res@ =~= cookie_prefix() + tokens_value(token_view(tokens@)) + cookie_attributes(
        meeting_id@,
    ));
    res
}

/// Reads one entry of the cookie value.
fn parse_entry_chars(e: &[char]) -> (res: Option<(i64, Vec<char>)>)
    ensures
        match res {
            Some((p, t)) => parse_entry(e@) == Some((p, t@)),
            None => parse_entry(e@) is None,
        },
{
    proof {
        lemma_first_index_of(e@, '_');
    }
    let n = e.len();
    match find_char(e, '_') {
        None => None,
        Some(k) => {
            assert(k < n);
            let mut head: Vec<char> = Vec::new();
            let mut i: usize = 0;
            while i < k
                invariant
                    i <= k < e@.len(),
                    head@ == e@.take(i as int),
                decreases k - i,
            {
                head.push(e[i]);
                i = i + 1;
                assert(head@ =~= e@.take(i as int));
            }
            match parse_i64_chars(&head) {
                None => None,
                Some(p) => {
                    let mut tail: Vec<char> = Vec::new();
                    let mut j: usize = k + 1;
                    while j < e.len()
                        invariant
                            k + 1 <= j <= e@.len(),
                            tail@ == e@.subrange(k + 1, j as int),
                        decreases e@.len() - j,
                    {
                        tail.push(e[j]);
                        j = j + 1;
                        assert(tail@ =~= e@.subrange(k + 1, j as int));
                    }
                    assert(tail@ =~= e@.skip(k + 1));
                    Some((p, tail))
                },
            }
        },
    }
}

/// The entry text of one token, as the cookie value writes it.
fn entry_chars(pid: i64, token: &String) -> (res: Vec<char>)
    ensures
        res@ == entry_text(pid, token@),
{
    let mut res = i64_to_decimal(pid);
    res.push('_');
    let tok = chars_of(token.as_str());
    extend_chars(&mut res, &tok);
    res
}

/// The cookie value for `tokens`: the entries `<pid>_<token>` in increasing
/// string order, joined by `.`.
pub fn build_edit_tokens_value(tokens: &HashMap<i64, String>) -> (res: String)
    ensures
        res@ == tokens_value(token_view(tokens@)),
{
    let ghost m = token_view(tokens@);
    let mut sorted: Vec<Vec<char>> = Vec::new();
    let ghost all = spec_hash_map_iter(tokens).remaining();
    for (pid, tok) in it: tokens.iter()
        invariant
            it.seq() == all,
            all.no_duplicates(),
            strictly_sorted(views(sorted@)),
            forall|x: Seq<char>|
                views(sorted@).contains(x) <==> exists|j: int|
                    0 <= j < it.index() && x == entry_text(
                        *(#[trigger] it.seq()[j]).0,
                        (*it.seq()[j].1)@,
                    ),
    {
        let ghost idx = it.index();
        let e = entry_chars(*pid, tok);
        let mut k: usize = 0;
        while k < sorted.len() && lex_less(&sorted[k], &e)
            invariant
                k <= sorted@.len(),
                forall|j: int| 0 <= j < k ==> lex_lt(#[trigger] views(sorted@)[j], e@),
            decreases sorted@.len() - k,
        {
            k = k + 1;
        }
        let ghost before = views(sorted@);
        assert(!before.contains(e@)) by {
            if before.contains(e@) {
                let j = choose|j: int|
                    0 <= j < it.index() && e@ == entry_text(
                        *(#[trigger] it.seq()[j]).0,
                        (*it.seq()[j].1)@,
                    );
                lemma_parse_entry_text(*pid, tok@);
                lemma_parse_entry_text(*it.seq()[j].0, (*it.seq()[j].1)@);
                assert(tokens@.contains_key(*it.seq()[j].0));
                assert(tokens@.contains_key(*it.seq()[it.index() as int].0));
                assert(tokens@[*it.seq()[j].0] == *it.seq()[j].1);
                assert(tokens@[*it.seq()[it.index() as int].0] == *it.seq()[it.index() as int].1);
                assert(it.seq()[j] == it.seq()[it.index() as int]);
            }
        }
        proof {
            lemma_sorted_insert(before, e@, k as int);
        }
        let ghost e_view = e@;
        sorted.insert(k, e);
        let ghost after = views(sorted@);
        assert(after =~= before.insert(k as int, e_view));
        assert forall|x: Seq<char>|
            after.contains(x) <==> exists|j: int|
                0 <= j < idx + 1 && x == entry_text(
                    *(#[trigger] it.seq()[j]).0,
                    (*it.seq()[j].1)@,
                ) by {
            if after.contains(x) {
                let i = choose|i: int| 0 <= i < after.len() && after[i] == x;
                if i == k {
                    assert(x == entry_text(*it.seq()[idx].0, (*it.seq()[idx].1)@));
                } else if i < k {
                    assert(before[i] == x);
                    assert(before.contains(x));
                } else {
                    assert(before[i - 1] == x);
                    assert(before.contains(x));
                }
            }
            if exists|j: int|
                0 <= j < idx + 1 && x == entry_text(
                    *(#[trigger] it.seq()[j]).0,
                    (*it.seq()[j].1)@,
                ) {
                let j = choose|j: int|
                    0 <= j < idx + 1 && x == entry_text(
                        *(#[trigger] it.seq()[j]).0,
                        (*it.seq()[j].1)@,
                    );
                if j == idx {
                    assert(after[k as int] == x);
                } else {
                    assert(before.contains(x));
                    let i = choose|i: int| 0 <= i < before.len() && before[i] == x;
                    if i < k {
                        assert(after[i] == x);
                    } else {
                        assert(after[i + 1] == x);
                    }
                }
            }
        }
    }
    assert(forall|x: Seq<char>|
        views(sorted@).contains(x) <==> exists|j: int|
            0 <= j < all.len() && x == entry_text(*(#[trigger] all[j]).0, (*all[j].1)@));
    let ghost listed = views(sorted@);
    assert forall|x: Seq<char>| listed.contains(x) <==> entry_texts(m).contains(x) by {
        if listed.contains(x) {
            let j = choose|j: int|
                0 <= j < all.len() && x == entry_text(*(#[trigger] all[j]).0, (*all[j].1)@);
            let p = *all[j].0;
            assert(tokens@.contains_key(p));
            assert(tokens@[p] == *all[j].1);
            assert(m.dom().contains(p) && x == entry_text(p, m[p]));
        }
        if entry_texts(m).contains(x) {
            let p = choose|p: i64| m.dom().contains(p) && x == entry_text(p, m[p]);
            assert(tokens@.contains_key(p));
            assert(all.contains((&p, &tokens@[p])));
            let j = choose|j: int| 0 <= j < all.len() && all[j] == (&p, &tokens@[p]);
            assert(x == entry_text(*all[j].0, (*all[j].1)@));
        }
    }
    proof {
        lemma_lists_entries_unique(listed, m);
    }
    let mut res = String::new();
    let mut i: usize = 0;
    while i < sorted.len()
        invariant
            i <= sorted@.len(),
            listed == views(sorted@),
            i > 0 ==> res@ == join_with(listed.take(i as int), '.'),
            i == 0 ==> res@ == Seq::<char>::empty(),
        decreases sorted@.len() - i,
    {
        let ghost prev = listed.take(i as int);
        assert(listed.take(i + 1).drop_last() =~= prev);
        assert(listed.take(i + 1).last() == sorted@[i as int]@);
        if i > 0 {
            string_push(&mut res, '.');
        }
        push_chars(&mut res, &sorted[i]);
        i = i + 1;
        assert(i == 1 ==> listed.take(i as int) =~= seq![sorted@[0]@]);
    }
    if sorted.len() == 0 {
        assert(listed =~= Seq::<Seq<char>>::empty());
    } else {
        assert(listed.take(listed.len() as int) =~= listed);
    }
    res
}

} // verus!
