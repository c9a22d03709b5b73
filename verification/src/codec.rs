//! JSON codec for the recent-files store.
//!
//! The store is persisted as a single JSON document: an array of objects
//! `{"path": <string>, "timestamp": <integer>}`, oldest entry first. The
//! encoder emits one canonical form (compact, fields in that order, with
//! `\"`, `\\` and `\u00..` as the only string escapes); the parser reads
//! exactly that form back. A document that does not parse, or whose
//! entries would break the store's invariant, loads as the empty store.
//! Beyond the encoder's own escapes the parser accepts the five short
//! control escapes `\b`, `\t`, `\n`, `\f` and `\r`, so documents
//! written by common JSON serializers load unchanged.

use vstd::prelude::*;
use crate::recent::{RecentEntry, RecentStore, entries_view, store_wf, CAPACITY};

verus! {

/// Lower-case hexadecimal digit for a value below 16.
pub open spec fn hex_digit(v: int) -> char {
    if v == 0 { '0' } else if v == 1 { '1' } else if v == 2 { '2' } else if v == 3 { '3' }
    else if v == 4 { '4' } else if v == 5 { '5' } else if v == 6 { '6' } else if v == 7 { '7' }
    else if v == 8 { '8' } else if v == 9 { '9' } else if v == 10 { 'a' } else if v == 11 { 'b' }
    else if v == 12 { 'c' } else if v == 13 { 'd' } else if v == 14 { 'e' } else { 'f' }
}

/// Decimal digit for a value below 10.
pub open spec fn dec_digit(v: int) -> char {
    if v == 0 { '0' } else if v == 1 { '1' } else if v == 2 { '2' } else if v == 3 { '3' }
    else if v == 4 { '4' } else if v == 5 { '5' } else if v == 6 { '6' } else if v == 7 { '7' }
    else if v == 8 { '8' } else { '9' }
}

/// JSON escape of one character: quote and backslash get a backslash,
/// control characters a `\u00..` escape, everything else stands as is.
pub open spec fn esc_char(c: char) -> Seq<char> {
    if c == '"' {
        seq!['\\', '"']
    } else if c == '\\' {
        seq!['\\', '\\']
    } else if (c as u32) < 32 {
        seq!['\\', 'u', '0', '0', hex_digit(c as u32 as int / 16), hex_digit(c as u32 as int % 16)]
    } else {
        seq![c]
    }
}

/// JSON escape of a whole string body.
pub open spec fn esc_str(s: Seq<char>) -> Seq<char>
    decreases s.len(),
{
    if s.len() == 0 {
        Seq::empty()
    } else {
        esc_char(s[0]) + esc_str(s.drop_first())
    }
}

/// Decimal digits of a non-negative number, most significant first.
pub open spec fn dec_digits(n: int) -> Seq<char>
    decreases n,
{
    if n < 10 {
        seq![dec_digit(n)]
    } else {
        dec_digits(n / 10).push(dec_digit(n % 10))
    }
}

/// The opening of an entry object, up to and including the quote that
/// starts the path string.
pub open spec fn key_path() -> Seq<char> {
    seq!['{', '"', 'p', 'a', 't', 'h', '"', ':', '"']
}

/// The middle of an entry object, from just after the quote that closes
/// the path string up to and including the colon before the timestamp.
pub open spec fn key_ts() -> Seq<char> {
    seq![',', '"', 't', 'i', 'm', 'e', 's', 't', 'a', 'm', 'p', '"', ':']
}

/// Canonical encoding of one entry.
pub open spec fn enc_entry(e: (Seq<char>, u64)) -> Seq<char> {
    key_path() + esc_str(e.0) + seq!['"'] + key_ts() + dec_digits(e.1 as int) + seq!['}']
}

/// Canonical encoding of the entries from index `k` on, comma separated.
pub open spec fn enc_items_from(s: Seq<(Seq<char>, u64)>, k: int) -> Seq<char>
    decreases s.len() - k,
{
    if k < 0 || k >= s.len() {
        Seq::empty()
    } else {
        enc_entry(s[k]) + (if k == s.len() - 1 {
            Seq::<char>::empty()
        } else {
            seq![',']
        }) + enc_items_from(s, k + 1)
    }
}

/// Canonical encoding of a whole store.
pub open spec fn spec_encode(s: Seq<(Seq<char>, u64)>) -> Seq<char> {
    seq!['['] + enc_items_from(s, 0) + seq![']']
}

/// Builds the string holding exactly the given characters.
///
/// Relies on `String: FromIterator<char>`: collecting characters yields
/// the string of those characters in order.
#[verifier::external_body]
fn chars_to_string(v: Vec<char>) -> (s: String)
    ensures
        s@ == v@,
{
    v.into_iter().collect()
}

/// Appends the decimal digits of `n` to `out`.
fn encode_u64_into(out: &mut Vec<char>, n: u64)
    ensures
        final(out)@ == old(out)@ + dec_digits(n as int),
{
    let ghost base = out@;
    if n == 0 {
        out.push('0');
        proof {
            assert(out@ =~= base + dec_digits(0));
        }
        return ;
    }
    let mut rev: Vec<char> = Vec::new();
    let mut m: u64 = n;
    while m > 0
        invariant
            m > 0 ==> dec_digits(n as int) == dec_digits(m as int) + rev@.reverse(),
            m == 0 ==> dec_digits(n as int) == rev@.reverse(),
        decreases m,
    {
        let d = m % 10;
        let c = digit_char(d);
        let ghost rev_before = rev@;
        rev.push(c);
        proof {
            assert(rev@.reverse() =~= seq![c] + rev_before.reverse());
        }
        let m_old = m;
        m = m / 10;
        proof {
            if m > 0 {
                assert(m_old >= 10);
                assert(dec_digits(m_old as int) == dec_digits(m as int).push(c));
                assert(dec_digits(m as int) + rev@.reverse() =~= (dec_digits(m as int).push(c))
                    + rev_before.reverse());
            } else {
                assert(m_old < 10);
                assert(dec_digits(m_old as int) == seq![c]);
                assert(rev@.reverse() =~= dec_digits(m_old as int) + rev_before.reverse());
            }
        }
    }
    let k = rev.len();
    let mut j: usize = k;
    while j > 0
        invariant
            j <= k,
            k == rev.len(),
            dec_digits(n as int) == rev@.reverse(),
            out@ == base + rev@.reverse().take(k - j),
        decreases j,
    {
        j = j - 1;
        let c = rev[j];
        out.push(c);
        proof {
            assert(rev@.reverse()[k - j - 1] == rev@[j as int]);
            assert(out@ =~= base + rev@.reverse().take(k - j));
        }
    }
    proof {
        assert(rev@.reverse().take(k as int) =~= rev@.reverse());
    }
}

/// The character of a decimal digit value.
fn digit_char(d: u64) -> (c: char)
    requires
        d < 10,
    ensures
        c == dec_digit(d as int),
{
    if d == 0 { '0' } else if d == 1 { '1' } else if d == 2 { '2' } else if d == 3 { '3' }
    else if d == 4 { '4' } else if d == 5 { '5' } else if d == 6 { '6' } else if d == 7 { '7' }
    else if d == 8 { '8' } else { '9' }
}

/// The lower-case hexadecimal character of a digit value.
fn hex_char(d: u32) -> (c: char)
    requires
        d < 16,
    ensures
        c == hex_digit(d as int),
{
    if d == 0 { '0' } else if d == 1 { '1' } else if d == 2 { '2' } else if d == 3 { '3' }
    else if d == 4 { '4' } else if d == 5 { '5' } else if d == 6 { '6' } else if d == 7 { '7' }
    else if d == 8 { '8' } else if d == 9 { '9' } else if d == 10 { 'a' } else if d == 11 { 'b' }
    else if d == 12 { 'c' } else if d == 13 { 'd' } else if d == 14 { 'e' } else { 'f' }
}

/// Appends the escaped body of `s` to `out`.
fn encode_str_into(out: &mut Vec<char>, s: &str)
    ensures
        final(out)@ == old(out)@ + esc_str(s@),
{
    let ghost base = out@;
    let n = s.unicode_len();
    let mut i: usize = 0;
    while i < n
        invariant
            i <= n,
            n == s@.len(),
            out@ == base + esc_str(s@.take(i as int)),
        decreases n - i,
    {
        let c = s.get_char(i);
        let ghost out_before = out@;
        if c == '"' {
            out.push('\\');
            out.push('"');
        } else if c == '\\' {
            out.push('\\');
            out.push('\\');
        } else {
            let v = c as u32;
            if v < 32 {
                out.push('\\');
                out.push('u');
                out.push('0');
                out.push('0');
                out.push(hex_char(v / 16));
                out.push(hex_char(v % 16));
            } else {
                out.push(c);
            }
        }
        proof {
            assert(out@ =~= out_before + esc_char(s@[i as int]));
            lemma_esc_str_push(s@.take(i as int), s@[i as int]);
            assert(s@.take(i as int).push(s@[i as int]) =~= s@.take(i as int + 1));
            assert(out@ =~= base + esc_str(s@.take(i as int + 1)));
        }
        i = i + 1;
    }
    proof {
        assert(s@.take(n as int) =~= s@);
    }
}

/// Escaping distributes over appending one character.
proof fn lemma_esc_str_push(s: Seq<char>, c: char)
    ensures
        esc_str(s.push(c)) == esc_str(s) + esc_char(c),
    decreases s.len(),
{
    if s.len() == 0 {
        assert(s.push(c).drop_first() =~= Seq::<char>::empty());
        assert(s.push(c)[0] == c);
        assert(esc_str(s.push(c)) == esc_char(c) + esc_str(Seq::<char>::empty()));
        assert(esc_char(c) + Seq::<char>::empty() =~= esc_char(c));
        assert(esc_str(s) + esc_char(c) =~= esc_char(c));
    } else {
        assert(s.push(c).drop_first() =~= s.drop_first().push(c));
        lemma_esc_str_push(s.drop_first(), c);
        assert(esc_str(s.push(c)) == esc_char(s[0]) + (esc_str(s.drop_first()) + esc_char(c)));
        assert(esc_char(s[0]) + (esc_str(s.drop_first()) + esc_char(c)) =~= (esc_char(s[0])
            + esc_str(s.drop_first())) + esc_char(c));
    }
}

/// Appends the canonical encoding of one entry to `out`.
fn encode_entry_into(out: &mut Vec<char>, e: &RecentEntry)
    ensures
        final(out)@ == old(out)@ + enc_entry(e@),
{
    let ghost base = out@;
    out.push('{');
    out.push('"');
    out.push('p');
    out.push('a');
    out.push('t');
    out.push('h');
    out.push('"');
    out.push(':');
    out.push('"');
    proof {
        assert(out@ =~= base + key_path());
    }
    encode_str_into(out, e.path.as_str());
    let ghost after_path = out@;
    out.push('"');
    out.push(',');
    out.push('"');
    out.push('t');
    out.push('i');
    out.push('m');
    out.push('e');
    out.push('s');
    out.push('t');
    out.push('a');
    out.push('m');
    out.push('p');
    out.push('"');
    out.push(':');
    proof {
        assert(out@ =~= after_path + seq!['"'] + key_ts());
    }
    encode_u64_into(out, e.timestamp);
    out.push('}');
    proof {
        assert(out@ =~= base + enc_entry(e@));
    }
}

/// Serializes the store to its canonical JSON document.
pub fn write_recent_files(store: &RecentStore) -> (out: String)
    ensures
        out@ == spec_encode(store@),
{
    let entries = store.get_recent_files();
    let ghost s = store@;
    let mut out: Vec<char> = Vec::new();
    out.push('[');
    let n = entries.len();
    proof {
        assert(entries_view(entries@).len() == entries@.len());
    }
    let mut k: usize = 0;
    while k < n
        invariant
            k <= n,
            n == entries.len(),
            entries_view(entries@) == s,
            out@ + enc_items_from(s, k as int) == seq!['['] + enc_items_from(s, 0),
        decreases n - k,
    {
        let ghost out_before = out@;
        proof {
            assert(entries@[k as int]@ == s[k as int]);
        }
        encode_entry_into(&mut out, &entries[k]);
        if k + 1 < n {
            out.push(',');
            proof {
                assert(out@ =~= out_before + enc_entry(s[k as int]) + seq![',']);
            }
        }
        proof {
            assert(enc_items_from(s, k as int) == enc_entry(s[k as int]) + (if k as int == s.len()
                - 1 {
                Seq::<char>::empty()
            } else {
                seq![',']
            }) + enc_items_from(s, k as int + 1));
            assert(out@ + enc_items_from(s, k as int + 1) =~= out_before + enc_items_from(
                s,
                k as int,
            ));
        }
        k = k + 1;
    }
    proof {
        assert(enc_items_from(s, n as int) =~= Seq::<char>::empty());
        assert(out@ =~= seq!['['] + enc_items_from(s, 0));
    }
    out.push(']');
    proof {
        assert(out@ =~= spec_encode(s));
    }
    chars_to_string(out)
}

/// Serializes the store for the shutdown flush; same document as
/// [`write_recent_files`].
pub fn write_recent_files_on_exit(store: &RecentStore) -> (out: String)
    ensures
        out@ == spec_encode(store@),
{
    write_recent_files(store)
}

pub open spec fn is_dec_digit(c: char) -> bool {
    48 <= c as u32 <= 57
}

pub open spec fn digit_val(c: char) -> int {
    c as u32 as int - 48
}

/// Value of a lower-case hexadecimal digit, -1 for any other character.
pub open spec fn hex_val(c: char) -> int {
    if is_dec_digit(c) {
        digit_val(c)
    } else if c == 'a' { 10 } else if c == 'b' { 11 } else if c == 'c' { 12 }
    else if c == 'd' { 13 } else if c == 'e' { 14 } else if c == 'f' { 15 }
    else { -1 }
}

/// Reads decimal digits from position `i` on, extending the already
/// accumulated value `acc`; stops before the first non-digit. Fails only
/// when the value would not fit in a `u64`.
pub open spec fn parse_digits(s: Seq<char>, i: int, acc: int) -> Option<(int, int)>
    decreases s.len() - i,
{
    if i < 0 || i >= s.len() || !is_dec_digit(s[i]) {
        Some((acc, i))
    } else {
        let acc2 = acc * 10 + digit_val(s[i]);
        if acc2 > u64::MAX as int {
            None
        } else {
            parse_digits(s, i + 1, acc2)
        }
    }
}

/// Reads a decimal number that must start at `i`.
pub open spec fn parse_number(s: Seq<char>, i: int) -> Option<(u64, int)> {
    if 0 <= i < s.len() && is_dec_digit(s[i]) {
        match parse_digits(s, i, 0) {
            Some((v, j)) => Some((v as u64, j)),
            None => None,
        }
    } else {
        None
    }
}

/// Reads a string body from position `i` (just after the opening quote)
/// up to and including the closing quote, resolving the escapes the
/// encoder emits; `acc` holds the characters read so far.
pub open spec fn parse_str_chars(s: Seq<char>, i: int, acc: Seq<char>) -> Option<(Seq<char>, int)>
    decreases s.len() - i,
{
    if i < 0 || i >= s.len() {
        None
    } else if s[i] == '"' {
        Some((acc, i + 1))
    } else if s[i] == '\\' {
        if i + 1 >= s.len() {
            None
        } else if s[i + 1] == '"' {
            parse_str_chars(s, i + 2, acc.push('"'))
        } else if s[i + 1] == '\\' {
            parse_str_chars(s, i + 2, acc.push('\\'))
        } else if s[i + 1] == 'u' {
            if i + 6 > s.len() {
                None
            } else if s[i + 2] != '0' || s[i + 3] != '0' {
                None
            } else if hex_val(s[i + 4]) < 0 || hex_val(s[i + 5]) < 0 || hex_val(s[i + 4]) * 16
                + hex_val(s[i + 5]) >= 32 {
                None
            } else {
                parse_str_chars(
                    s,
                    i + 6,
                    acc.push(((hex_val(s[i + 4]) * 16 + hex_val(s[i + 5])) as u8) as char),
                )
            }
        } else if s[i + 1] == 'n' {
            parse_str_chars(s, i + 2, acc.push('\n'))
        } else if s[i + 1] == 't' {
            parse_str_chars(s, i + 2, acc.push('\t'))
        } else if s[i + 1] == 'r' {
            parse_str_chars(s, i + 2, acc.push('\r'))
        } else if s[i + 1] == 'b' {
            parse_str_chars(s, i + 2, acc.push('\u{8}'))
        } else if s[i + 1] == 'f' {
            parse_str_chars(s, i + 2, acc.push('\u{c}'))
        } else {
            None
        }
    } else {
        parse_str_chars(s, i + 1, acc.push(s[i]))
    }
}

/// The literal `lit` stands in `s` at position `i`.
pub open spec fn match_lit(s: Seq<char>, i: int, lit: Seq<char>) -> bool {
    0 <= i && i + lit.len() <= s.len() && s.subrange(i, i + lit.len()) == lit
}

/// Reads one entry object starting at position `i`.
pub open spec fn parse_entry(s: Seq<char>, i: int) -> Option<((Seq<char>, u64), int)> {
    if !match_lit(s, i, key_path()) {
        None
    } else {
        match parse_str_chars(s, i + 9, Seq::empty()) {
            None => None,
            Some((p, j)) => if !match_lit(s, j, key_ts()) {
                None
            } else {
                match parse_number(s, j + 13) {
                    None => None,
                    Some((t, k)) => if 0 <= k < s.len() && s[k] == '}' {
                        Some(((p, t), k + 1))
                    } else {
                        None
                    },
                }
            },
        }
    }
}

/// Reads entry objects from position `i` until the closing bracket,
/// which must end the document.
pub open spec fn parse_items(s: Seq<char>, i: int, acc: Seq<(Seq<char>, u64)>) -> Option<
    Seq<(Seq<char>, u64)>,
>
    decreases s.len() - i,
{
    match parse_entry(s, i) {
        None => None,
        Some((e, j)) => {
            if j <= i || j > s.len() {
                None
            } else if j < s.len() && s[j] == ',' {
                parse_items(s, j + 1, acc.push(e))
            } else if j == s.len() - 1 && s[j] == ']' {
                Some(acc.push(e))
            } else {
                None
            }
        },
    }
}

/// Reads a whole persisted document.
pub open spec fn spec_parse(s: Seq<char>) -> Option<Seq<(Seq<char>, u64)>> {
    if s.len() < 2 || s[0] != '[' {
        None
    } else if s.len() == 2 && s[1] == ']' {
        Some(Seq::empty())
    } else {
        parse_items(s, 1, Seq::empty())
    }
}

/// Whether the literal stands in `s` at position `i`.
fn expect_lit(s: &str, i: usize, lit: &str) -> (r: bool)
    ensures
        r == match_lit(s@, i as int, lit@),
        r ==> i + lit@.len() <= s@.len() <= usize::MAX,
{
    let n = s.unicode_len();
    let m = lit.unicode_len();
    if i > n || m > n - i {
        proof {
            assert(!match_lit(s@, i as int, lit@));
        }
        return false;
    }
    let mut k: usize = 0;
    while k < m
        invariant
            k <= m,
            n == s@.len(),
            m == lit@.len(),
            i + m <= n,
            forall|q: int| 0 <= q < k ==> s@[i + q] == lit@[q],
        decreases m - k,
    {
        if s.get_char(i + k) != lit.get_char(k) {
            proof {
                assert(s@.subrange(i as int, i as int + lit@.len())[k as int] != lit@[k as int]);
            }
            return false;
        }
        k = k + 1;
    }
    proof {
        assert(s@.subrange(i as int, i as int + lit@.len()) =~= lit@);
    }
    true
}

/// Reads a decimal number starting exactly at `i0`.
fn scan_number(s: &str, i0: usize) -> (r: Option<(u64, usize)>)
    ensures
        match r {
            Some((v, j)) => parse_number(s@, i0 as int) == Some((v, j as int)) && i0 < j <= s@.len(),
            None => parse_number(s@, i0 as int) is None,
        },
{
    let n = s.unicode_len();
    if i0 >= n {
        return None;
    }
    let c0 = s.get_char(i0);
    let v0 = c0 as u32;
    if !(48 <= v0 && v0 <= 57) {
        return None;
    }
    let mut acc: u64 = 0;
    let mut i: usize = i0;
    loop
        invariant
            i0 <= i <= n,
            n == s@.len(),
            parse_digits(s@, i0 as int, 0) == parse_digits(s@, i as int, acc as int),
        ensures
            i0 <= i <= n,
            parse_digits(s@, i0 as int, 0) == parse_digits(s@, i as int, acc as int),
            i >= n || !is_dec_digit(s@[i as int]),
        decreases n - i,
    {
        if i >= n {
            break ;
        }
        let c = s.get_char(i);
        let v = c as u32;
        if !(48 <= v && v <= 57) {
            break ;
        }
        let d = (c as u32 - 48) as u64;
        let limit = u64::MAX / 10;
        if acc > limit || (acc == limit && d > u64::MAX % 10) {
            proof {
                assert(acc as int * 10 + d as int > u64::MAX as int);
                assert(parse_digits(s@, i as int, acc as int) is None);
            }
            return None;
        }
        proof {
            assert(acc as int * 10 + d as int <= u64::MAX as int);
        }
        acc = acc * 10 + d;
        i = i + 1;
    }
    proof {
        assert(parse_digits(s@, i as int, acc as int) == Some((acc as int, i as int)));
        assert(i0 < i);
    }
    Some((acc, i))
}

/// Value of a lower-case hexadecimal digit character.
fn scan_hex(c: char) -> (r: Option<u32>)
    ensures
        match r {
            Some(v) => hex_val(c) == v as int && v < 16,
            None => hex_val(c) < 0,
        },
{
    let v = c as u32;
    if 48 <= v && v <= 57 {
        Some(v - 48)
    } else if c == 'a' { Some(10) } else if c == 'b' { Some(11) } else if c == 'c' { Some(12) }
    else if c == 'd' { Some(13) } else if c == 'e' { Some(14) } else if c == 'f' { Some(15) }
    else {
        None
    }
}

/// Reads a string body starting at `i0`, just after the opening quote.
fn scan_string(s: &str, i0: usize) -> (r: Option<(Vec<char>, usize)>)
    ensures
        match r {
            Some((v, j)) => parse_str_chars(s@, i0 as int, Seq::empty()) == Some((v@, j as int))
                && i0 < j <= s@.len(),
            None => parse_str_chars(s@, i0 as int, Seq::empty()) is None,
        },
{
    let n = s.unicode_len();
    if i0 > n {
        return None;
    }
    let mut acc: Vec<char> = Vec::new();
    let mut i: usize = i0;
    loop
        invariant
            i0 <= i <= n,
            n == s@.len(),
            parse_str_chars(s@, i0 as int, Seq::empty()) == parse_str_chars(s@, i as int, acc@),
        decreases n - i,
    {
        if i >= n {
            return None;
        }
        let c = s.get_char(i);
        if c == '"' {
            return Some((acc, i + 1));
        } else if c == '\\' {
            if i + 1 >= n {
                return None;
            }
            let e = s.get_char(i + 1);
            if e == '"' {
                acc.push('"');
                i = i + 2;
            } else if e == '\\' {
                acc.push('\\');
                i = i + 2;
            } else if e == 'u' {
                if n - i < 6 {
                    return None;
                }
                if s.get_char(i + 2) != '0' || s.get_char(i + 3) != '0' {
                    return None;
                }
                let h1 = match scan_hex(s.get_char(i + 4)) {
                    Some(v) => v,
                    None => { return None; },
                };
                let h2 = match scan_hex(s.get_char(i + 5)) {
                    Some(v) => v,
                    None => { return None; },
                };
                let v = h1 * 16 + h2;
                if v >= 32 {
                    return None;
                }
                acc.push((v as u8) as char);
                i = i + 6;
            } else if e == 'n' {
                acc.push('\n');
                i = i + 2;
            } else if e == 't' {
                acc.push('\t');
                i = i + 2;
            } else if e == 'r' {
                acc.push('\r');
                i = i + 2;
            } else if e == 'b' {
                acc.push('\u{8}');
                i = i + 2;
            } else if e == 'f' {
                acc.push('\u{c}');
                i = i + 2;
            } else {
                return None;
            }
        } else {
            acc.push(c);
            i = i + 1;
        }
    }
}

/// Reads one entry object starting at `i0`.
fn scan_entry(s: &str, i0: usize) -> (r: Option<(RecentEntry, usize)>)
    ensures
        match r {
            Some((e, j)) => parse_entry(s@, i0 as int) == Some((e@, j as int)) && i0 < j
                <= s@.len(),
            None => parse_entry(s@, i0 as int) is None,
        },
{
    proof {
        reveal_strlit("{\"path\":\"");
        assert("{\"path\":\""@ =~= key_path());
        reveal_strlit(",\"timestamp\":");
        assert(",\"timestamp\":"@ =~= key_ts());
    }
    if !expect_lit(s, i0, "{\"path\":\"") {
        return None;
    }
    let (path_chars, j) = match scan_string(s, i0 + 9) {
        Some(p) => p,
        None => { return None; },
    };
    if !expect_lit(s, j, ",\"timestamp\":") {
        return None;
    }
    let (ts, k) = match scan_number(s, j + 13) {
        Some(v) => v,
        None => { return None; },
    };
    let n = s.unicode_len();
    if !(k < n) {
        return None;
    }
    if s.get_char(k) != '}' {
        return None;
    }
    let e = RecentEntry { path: chars_to_string(path_chars), timestamp: ts };
    Some((e, k + 1))
}

/// Reads a whole document into entries; fails where the document is not
/// in the canonical form the encoder emits.
fn parse_document(s: &str) -> (r: Option<Vec<RecentEntry>>)
    ensures
        match r {
            Some(v) => spec_parse(s@) == Some(entries_view(v@)),
            None => spec_parse(s@) is None,
        },
{
    let n = s.unicode_len();
    if n < 2 {
        return None;
    }
    if s.get_char(0) != '[' {
        return None;
    }
    if n == 2 {
        if s.get_char(1) == ']' {
            let empty: Vec<RecentEntry> = Vec::new();
            proof {
                assert(entries_view(empty@) =~= Seq::<(Seq<char>, u64)>::empty());
            }
            return Some(empty);
        } else {
            proof {
                assert(parse_entry(s@, 1) is None) by {
                    assert(!match_lit(s@, 1, key_path()));
                }
            }
            return None;
        }
    }
    let mut acc: Vec<RecentEntry> = Vec::new();
    proof {
        assert(entries_view(acc@) =~= Seq::<(Seq<char>, u64)>::empty());
    }
    let mut i: usize = 1;
    loop
        invariant
            1 <= i <= n,
            n == s@.len(),
            n > 2,
            s@[0] == '[',
            parse_items(s@, 1, Seq::empty()) == parse_items(s@, i as int, entries_view(acc@)),
            spec_parse(s@) == parse_items(s@, 1, Seq::empty()),
        decreases n - i,
    {
        let (e, j) = match scan_entry(s, i) {
            Some(p) => p,
            None => { return None; },
        };
        let ghost acc_before = acc@;
        if j < n && s.get_char(j) == ',' {
            acc.push(e);
            proof {
                assert(entries_view(acc@) =~= entries_view(acc_before).push(e@));
            }
            i = j + 1;
        } else if j == n - 1 && s.get_char(j) == ']' {
            acc.push(e);
            proof {
                assert(entries_view(acc@) =~= entries_view(acc_before).push(e@));
            }
            return Some(acc);
        } else {
            return None;
        }
    }
}

/// Whether the entries satisfy the store's invariant.
fn check_wf(v: &Vec<RecentEntry>) -> (r: bool)
    ensures
        r == store_wf(entries_view(v@)),
{
    let n = v.len();
    proof {
        assert(entries_view(v@).len() == v@.len());
    }
    if n > CAPACITY {
        return false;
    }
    let mut i: usize = 0;
    while i < n
        invariant
            i <= n,
            n == v.len(),
            n <= CAPACITY,
            forall|a: int, b: int|
                0 <= a < b < n && a < i ==> entries_view(v@)[a].0 != entries_view(v@)[b].0,
        decreases n - i,
    {
        let mut j: usize = i + 1;
        while j < n
            invariant
                i < j <= n || (i + 1 == j && j > n),
                i < n,
                n == v.len(),
                forall|b: int| i < b < j ==> entries_view(v@)[i as int].0 != entries_view(v@)[b].0,
            decreases n - j,
        {
            proof {
                assert(entries_view(v@)[i as int] == v@[i as int]@);
                assert(entries_view(v@)[j as int] == v@[j as int]@);
            }
            if v[i].path == v[j].path {
                return false;
            }
            j = j + 1;
        }
        i = i + 1;
    }
    true
}

pub open spec fn pow10(k: nat) -> int
    decreases k,
{
    if k == 0 {
        1
    } else {
        10 * pow10((k - 1) as nat)
    }
}

pub open spec fn all_digits(ds: Seq<char>) -> bool {
    forall|k: int| 0 <= k < ds.len() ==> is_dec_digit(ds[k])
}

/// Value of a digit string, most significant digit first.
pub open spec fn digits_val(ds: Seq<char>) -> int
    decreases ds.len(),
{
    if ds.len() == 0 {
        0
    } else {
        digits_val(ds.drop_last()) * 10 + digit_val(ds.last())
    }
}

proof fn lemma_pow10_pos(k: nat)
    ensures
        pow10(k) >= 1,
    decreases k,
{
    if k > 0 {
        lemma_pow10_pos((k - 1) as nat);
    }
}

proof fn lemma_digits_val_nonneg(ds: Seq<char>)
    requires
        all_digits(ds),
    ensures
        digits_val(ds) >= 0,
    decreases ds.len(),
{
    if ds.len() > 0 {
        assert(all_digits(ds.drop_last()));
        lemma_digits_val_nonneg(ds.drop_last());
    }
}

/// The digits the encoder emits for `n` are decimal digits whose value
/// is `n` again.
proof fn lemma_dec_digits_props(n: int)
    requires
        n >= 0,
    ensures
        all_digits(dec_digits(n)),
        digits_val(dec_digits(n)) == n,
        dec_digits(n).len() >= 1,
    decreases n,
{
    if n < 10 {
        let ds = dec_digits(n);
        assert(ds.drop_last() =~= Seq::<char>::empty());
        assert(digits_val(Seq::<char>::empty()) == 0);
        assert(ds.last() == dec_digit(n));
        assert(digits_val(ds) == digit_val(dec_digit(n)));
    } else {
        lemma_dec_digits_props(n / 10);
        let ds = dec_digits(n);
        assert(ds.drop_last() =~= dec_digits(n / 10));
        assert(ds.last() == dec_digit(n % 10));
        assert(digit_val(dec_digit(n % 10)) == n % 10);
        assert(digits_val(ds) == (n / 10) * 10 + n % 10);
    }
}

/// A digit string's value, split at its first digit.
proof fn lemma_digits_val_front(ds: Seq<char>)
    requires
        ds.len() > 0,
    ensures
        digits_val(ds) == digit_val(ds[0]) * pow10((ds.len() - 1) as nat) + digits_val(
            ds.drop_first(),
        ),
    decreases ds.len(),
{
    if ds.len() == 1 {
        assert(ds.drop_last() =~= Seq::<char>::empty());
        assert(ds.drop_first() =~= Seq::<char>::empty());
        assert(digits_val(Seq::<char>::empty()) == 0);
        assert(ds.last() == ds[0]);
        assert(digits_val(ds) == digit_val(ds[0]));
    } else {
        let ddl = ds.drop_last();
        lemma_digits_val_front(ddl);
        let df = ds.drop_first();
        assert(ddl.drop_first() =~= df.drop_last());
        assert(ddl[0] == ds[0]);
        assert(ds.last() == df.last());
        let a = digit_val(ds[0]);
        let k = (ds.len() - 2) as nat;
        assert(digits_val(ddl) == a * pow10(k) + digits_val(df.drop_last()));
        assert(digits_val(ds) == (a * pow10(k) + digits_val(df.drop_last())) * 10 + digit_val(
            df.last(),
        ));
        assert((a * pow10(k) + digits_val(df.drop_last())) * 10 == a * (10 * pow10(k))
            + digits_val(df.drop_last()) * 10) by (nonlinear_arith);
        assert(pow10((ds.len() - 1) as nat) == 10 * pow10(k));
        assert(digits_val(df) == digits_val(df.drop_last()) * 10 + digit_val(df.last()));
    }
}

/// Reading a run of digits accumulates exactly the run's value.
proof fn lemma_parse_digits_run(s: Seq<char>, i: int, j: int, acc: int)
    requires
        0 <= i <= j <= s.len(),
        forall|k: int| i <= k < j ==> is_dec_digit(s[k]),
        j == s.len() || !is_dec_digit(s[j]),
        acc >= 0,
        acc * pow10((j - i) as nat) + digits_val(s.subrange(i, j)) <= u64::MAX as int,
    ensures
        parse_digits(s, i, acc) == Some(
            (acc * pow10((j - i) as nat) + digits_val(s.subrange(i, j)), j),
        ),
    decreases j - i,
{
    let run = s.subrange(i, j);
    assert(all_digits(run));
    if i == j {
        assert(run =~= Seq::<char>::empty());
        assert(parse_digits(s, i, acc) == Some((acc, i)));
    } else {
        assert(is_dec_digit(s[i]));
        let acc2 = acc * 10 + digit_val(s[i]);
        let k = (j - i - 1) as nat;
        let rest = s.subrange(i + 1, j);
        assert(run[0] == s[i]);
        assert(run.drop_first() =~= rest);
        lemma_digits_val_front(run);
        assert(digits_val(run) == digit_val(s[i]) * pow10(k) + digits_val(rest));
        assert(acc2 * pow10(k) == acc * (10 * pow10(k)) + digit_val(s[i]) * pow10(k))
            by (nonlinear_arith)
            requires
                acc2 == acc * 10 + digit_val(s[i]),
        ;
        assert(pow10((j - i) as nat) == 10 * pow10(k));
        assert(acc2 * pow10(k) + digits_val(rest) == acc * pow10((j - i) as nat) + digits_val(
            run,
        ));
        assert(all_digits(rest));
        lemma_digits_val_nonneg(rest);
        lemma_pow10_pos(k);
        assert(acc2 <= acc2 * pow10(k)) by (nonlinear_arith)
            requires
                acc2 >= 0,
                pow10(k) >= 1,
        ;
        assert(acc2 <= u64::MAX as int);
        lemma_parse_digits_run(s, i + 1, j, acc2);
    }
}

/// The encoder's digits for `t`, followed by a non-digit, read back as `t`.
proof fn lemma_parse_number_of_digits(s: Seq<char>, i: int, t: u64)
    requires
        0 <= i,
        i + dec_digits(t as int).len() <= s.len(),
        s.subrange(i, i + dec_digits(t as int).len()) == dec_digits(t as int),
        i + dec_digits(t as int).len() == s.len() || !is_dec_digit(
            s[i + dec_digits(t as int).len()],
        ),
    ensures
        parse_number(s, i) == Some((t, i + dec_digits(t as int).len())),
{
    let dd = dec_digits(t as int);
    let j = i + dd.len();
    lemma_dec_digits_props(t as int);
    assert(forall|k: int| i <= k < j ==> s[k] == dd[k - i]);
    assert(forall|k: int| i <= k < j ==> is_dec_digit(s[k]));
    lemma_pow10_pos((j - i) as nat);
    assert(0 * pow10((j - i) as nat) == 0);
    lemma_parse_digits_run(s, i, j, 0);
    assert(s[i] == dd[0]);
    assert(digits_val(s.subrange(i, j)) == t as int);
    assert(parse_number(s, i) == Some((t, j)));
}

/// The escape of `p`, followed by a closing quote, reads back as `p`.
#[verifier::rlimit(60)]
proof fn lemma_parse_str_of_esc(s: Seq<char>, i: int, p: Seq<char>, acc: Seq<char>)
    requires
        0 <= i,
        i + esc_str(p).len() < s.len(),
        s.subrange(i, i + esc_str(p).len()) == esc_str(p),
        s[i + esc_str(p).len()] == '"',
    ensures
        parse_str_chars(s, i, acc) == Some((acc + p, i + esc_str(p).len() + 1)),
    decreases p.len(),
{
    let ep = esc_str(p);
    if p.len() == 0 {
        assert(ep.len() == 0);
        assert(s[i] == '"');
        assert(acc + p =~= acc);
    } else {
        let c = p[0];
        let ec = esc_char(c);
        let rest = esc_str(p.drop_first());
        assert(ep == ec + rest);
        assert(forall|q: int| 0 <= q < ep.len() ==> s[i + q] == ep[q]);
        assert(forall|q: int| 0 <= q < ec.len() ==> ep[q] == ec[q]);
        assert(forall|q: int| 0 <= q < rest.len() ==> ep[ec.len() + q] == rest[q]);
        let i2 = i + ec.len();
        assert forall|q: int| 0 <= q < rest.len() implies s[i2 + q] == rest[q] by {
            assert(s[i + (ec.len() + q)] == ep[ec.len() + q]);
        }
        assert(s.subrange(i2, i2 + rest.len()) =~= rest);
        assert(s[i2 + rest.len()] == '"');
        if c == '"' {
            assert(s[i] == '\\' && s[i + 1] == '"');
            lemma_parse_str_of_esc(s, i + 2, p.drop_first(), acc.push('"'));
            assert(acc.push(c) + p.drop_first() =~= acc + p);
        } else if c == '\\' {
            assert(s[i] == '\\' && s[i + 1] == '\\');
            lemma_parse_str_of_esc(s, i + 2, p.drop_first(), acc.push('\\'));
            assert(acc.push(c) + p.drop_first() =~= acc + p);
        } else if (c as u32) < 32 {
            let cv = c as u32 as int;
            assert(s[i] == '\\' && s[i + 1] == 'u' && s[i + 2] == '0' && s[i + 3] == '0');
            let h1 = hex_digit(cv / 16);
            let h2 = hex_digit(cv % 16);
            assert(s[i + 4] == h1 && s[i + 5] == h2);
            assert(hex_val(h1) == cv / 16);
            assert(hex_val(h2) == cv % 16);
            assert(hex_val(h1) * 16 + hex_val(h2) == cv);
            let u: u32 = c as u32;
            assert(cv == u as int);
            assert(0 <= cv < 32);
            assert((cv as u8) as int == cv);
            assert((u as char) == c) by {
                vstd::utf8::char_u32_cast(c, u);
            }
            assert(((cv as u8) as char) == (u as char));
            assert(((cv as u8) as char) == c);
            lemma_parse_str_of_esc(s, i + 6, p.drop_first(), acc.push(c));
            assert(acc.push(c) + p.drop_first() =~= acc + p);
        } else {
            assert(ec =~= seq![c]);
            assert(s[i + 0] == ep[0]);
            assert(ep[0] == ec[0]);
            assert(s[i] == c);
            assert(s[i] != '"' && s[i] != '\\');
            lemma_parse_str_of_esc(s, i + 1, p.drop_first(), acc.push(c));
            assert(acc.push(c) + p.drop_first() =~= acc + p);
        }
    }
}

/// One encoded entry reads back as that entry.
proof fn lemma_parse_entry_of_enc(s: Seq<char>, i: int, e: (Seq<char>, u64))
    requires
        0 <= i,
        i + enc_entry(e).len() <= s.len(),
        s.subrange(i, i + enc_entry(e).len()) == enc_entry(e),
    ensures
        parse_entry(s, i) == Some((e, i + enc_entry(e).len())),
{
    let enc = enc_entry(e);
    let ep = esc_str(e.0);
    let en = ep.len() as int;
    let dd = dec_digits(e.1 as int);
    let dl = dd.len() as int;
    lemma_dec_digits_props(e.1 as int);
    assert(enc.len() == 24 + en + dl);
    assert(forall|q: int| 0 <= q < enc.len() ==> s[i + q] == enc[q]);
    // the fixed opening
    assert(s.subrange(i, i + 9) =~= key_path());
    assert(match_lit(s, i, key_path()));
    // the escaped path, closed by the quote at i + 9 + en
    assert(forall|q: int| 0 <= q < en ==> enc[9 + q] == ep[q]);
    assert(s.subrange(i + 9, i + 9 + en) =~= ep);
    assert(enc[9 + en] == '"');
    lemma_parse_str_of_esc(s, i + 9, e.0, Seq::empty());
    assert(Seq::empty() + e.0 =~= e.0);
    let j = i + 9 + en + 1;
    // the fixed middle
    assert(forall|q: int| 0 <= q < 13 ==> enc[10 + en + q] == key_ts()[q]);
    assert(s.subrange(j, j + 13) =~= key_ts());
    assert(match_lit(s, j, key_ts()));
    // the timestamp digits, closed by the brace
    assert(forall|q: int| 0 <= q < dl ==> enc[23 + en + q] == dd[q]);
    assert(s.subrange(j + 13, j + 13 + dl) =~= dd);
    assert(enc[23 + en + dl] == '}');
    assert(s[j + 13 + dl] == '}');
    assert(!is_dec_digit('}'));
    lemma_parse_number_of_digits(s, j + 13, e.1);
    assert((e.0, e.1) == e);
}

/// The encoded tail of a store, closed by the final bracket, reads back
/// as those entries.
proof fn lemma_parse_items_of_enc(
    es: Seq<(Seq<char>, u64)>,
    k: int,
    s: Seq<char>,
    i: int,
    acc: Seq<(Seq<char>, u64)>,
)
    requires
        0 <= k < es.len(),
        0 < i,
        s.len() == i + enc_items_from(es, k).len() + 1,
        s.subrange(i, s.len() as int) == enc_items_from(es, k) + seq![']'],
    ensures
        parse_items(s, i, acc) == Some(acc + es.subrange(k, es.len() as int)),
    decreases es.len() - k,
{
    let items = enc_items_from(es, k);
    let ent = enc_entry(es[k]);
    lemma_dec_digits_props(es[k].1 as int);
    assert(ent.len() >= 25);
    assert(forall|q: int| 0 <= q < items.len() + 1 ==> s[i + q] == (items + seq![']'])[q]);
    assert(forall|q: int| 0 <= q < ent.len() ==> items[q] == ent[q]);
    assert(s.subrange(i, i + ent.len()) =~= ent);
    lemma_parse_entry_of_enc(s, i, es[k]);
    let j = i + ent.len();
    if k < es.len() - 1 {
        let rest = enc_items_from(es, k + 1);
        assert(items == ent + seq![','] + rest);
        assert(items[ent.len() as int] == ',');
        assert(s[i + ent.len() as int] == (items + seq![']'])[ent.len() as int]);
        assert(s[j] == ',');
        assert(j < s.len());
        assert(s.len() == j + 1 + rest.len() + 1);
        assert forall|q: int|
            0 <= q < rest.len() + 1 implies s[j + 1 + q] == (rest + seq![']'])[q] by {
            assert(s[i + (ent.len() + 1 + q)] == (items + seq![']'])[ent.len() + 1 + q]);
        }
        assert(s.subrange(j + 1, s.len() as int) =~= rest + seq![']']);
        lemma_parse_items_of_enc(es, k + 1, s, j + 1, acc.push(es[k]));
        assert(acc.push(es[k]) + es.subrange(k + 1, es.len() as int) =~= acc + es.subrange(
            k,
            es.len() as int,
        ));
    } else {
        assert(enc_items_from(es, k + 1) =~= Seq::<char>::empty());
        assert(items == ent + Seq::<char>::empty() + Seq::<char>::empty());
        assert(items =~= ent);
        assert(items.len() == ent.len());
        assert(j == s.len() - 1);
        assert(s[i + items.len() as int] == (items + seq![']'])[items.len() as int]);
        assert(s[j] == ']');
        assert(s[j] != ',');
        assert(acc.push(es[k]) =~= acc + es.subrange(k, es.len() as int));
    }
}

/// Round trip: parsing the canonical encoding of any store contents
/// yields exactly those contents. With the contracts of
/// [`write_recent_files`] and [`read_recent_files`], a flush followed
/// by a fresh load reproduces the same ordered entries.
pub proof fn lemma_encode_parse_round_trip(es: Seq<(Seq<char>, u64)>)
    ensures
        spec_parse(spec_encode(es)) == Some(es),
{
    let s = spec_encode(es);
    let items = enc_items_from(es, 0);
    assert(s[0] == '[');
    if es.len() == 0 {
        assert(items =~= Seq::<char>::empty());
        assert(s.len() == 2);
        assert(s[1] == ']');
        assert(es =~= Seq::<(Seq<char>, u64)>::empty());
    } else {
        lemma_dec_digits_props(es[0].1 as int);
        assert(items.len() >= 25);
        assert(s.len() > 2);
        assert(s.subrange(1, s.len() as int) =~= items + seq![']']);
        lemma_parse_items_of_enc(es, 0, s, 1, Seq::empty());
        assert(Seq::empty() + es.subrange(0, es.len() as int) =~= es);
    }
}

/// Loads a store from a persisted document. A document that does not
/// parse, or whose entries would break the store's invariant, yields
/// the empty store.
pub fn read_recent_files(text: &str) -> (st: RecentStore)
    ensures
        store_wf(st@),
        match spec_parse(text@) {
            Some(es) => if store_wf(es) {
                st@ == es
            } else {
                st@ == Seq::<(Seq<char>, u64)>::empty()
            },
            None => st@ == Seq::<(Seq<char>, u64)>::empty(),
        },
{
    match parse_document(text) {
        None => RecentStore::new(),
        Some(v) => {
            if check_wf(&v) {
                RecentStore::from_entries(v)
            } else {
                RecentStore::new()
            }
        },
    }
}

} // verus!
