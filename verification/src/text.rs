//! Character-level text helpers shared by the table and selector parsers:
//! trimming, separator splitting, case folding, and decimal integer parsing.

use vstd::prelude::*;
use vstd::slice::slice_subrange;
use vstd::string::{StrSliceExecFns, StringExecFns};

verus! {

/// The whitespace characters stripped by trimming.
pub open spec fn is_space(c: char) -> bool {
    c == ' ' || c == '\t' || c == '\r' || c == '\n'
}

/// `s` without its leading whitespace.
pub open spec fn trim_left(s: Seq<char>) -> Seq<char>
    decreases s.len(),
{
    if s.len() > 0 && is_space(s[0]) {
        trim_left(s.drop_first())
    } else {
        s
    }
}

/// `s` without its trailing whitespace.
pub open spec fn trim_right(s: Seq<char>) -> Seq<char>
    decreases s.len(),
{
    if s.len() > 0 && is_space(s[s.len() - 1]) {
        trim_right(s.drop_last())
    } else {
        s
    }
}

/// `s` without leading and trailing whitespace.
pub open spec fn trim_spec(s: Seq<char>) -> Seq<char> {
    trim_right(trim_left(s))
}

/// The index of the first occurrence of `sep` in `s`, or `s.len()` if absent.
pub open spec fn sep_index(s: Seq<char>, sep: char) -> int
    decreases s.len(),
{
    if s.len() == 0 {
        0
    } else if s[0] == sep {
        0
    } else {
        1 + sep_index(s.drop_first(), sep)
    }
}

/// `sep_index` points at the first separator, and stays within `s`.
pub proof fn lemma_sep_index(s: Seq<char>, sep: char)
    ensures
        0 <= sep_index(s, sep) <= s.len(),
        sep_index(s, sep) < s.len() ==> s[sep_index(s, sep)] == sep,
        forall|j: int| 0 <= j < sep_index(s, sep) ==> s[j] != sep,
    decreases s.len(),
{
    if s.len() > 0 && s[0] != sep {
        lemma_sep_index(s.drop_first(), sep);
        assert forall|j: int| 0 <= j < sep_index(s, sep) implies s[j] != sep by {
            if j > 0 {
                assert(s.drop_first()[j - 1] != sep);
            }
        }
    }
}

/// If the first `k` characters of `s` are not `sep`, and either `k` is the
/// length of `s` or `s[k]` is `sep`, then `k` is the first separator index.
pub proof fn lemma_sep_index_is(s: Seq<char>, sep: char, k: int)
    requires
        0 <= k <= s.len(),
        forall|j: int| 0 <= j < k ==> s[j] != sep,
        k < s.len() ==> s[k] == sep,
    ensures
        sep_index(s, sep) == k,
    decreases s.len(),
{
    if s.len() > 0 && s[0] != sep {
        lemma_sep_index_is(s.drop_first(), sep, k - 1);
    }
}

/// The fields of `s` when cut at every occurrence of `sep`; an `s` without
/// any separator is one field, and every separator ends a field, so there is
/// always one field more than there are separators.
pub open spec fn split_spec(s: Seq<char>, sep: char) -> Seq<Seq<char>>
    decreases s.len(),
    via split_spec_dec
{
    let i = sep_index(s, sep);
    if i == s.len() {
        seq![s]
    } else {
        seq![s.subrange(0, i)] + split_spec(s.subrange(i + 1, s.len() as int), sep)
    }
}

#[via_fn]
proof fn split_spec_dec(s: Seq<char>, sep: char) {
    lemma_sep_index(s, sep);
}

/// Lower-case folding of one character, over the ASCII letters.
pub open spec fn lower_char(c: char) -> char {
    if 'A' <= c && c <= 'Z' {
        ((c as u8) + 32) as char
    } else {
        c
    }
}

/// Lower-case folding of a string, character by character.
pub open spec fn lower_spec(s: Seq<char>) -> Seq<char> {
    s.map_values(|c: char| lower_char(c))
}

/// Whether `c` is a decimal digit.
pub open spec fn is_digit(c: char) -> bool {
    '0' <= c && c <= '9'
}

/// The numeric value of a digit character.
pub open spec fn digit_val(c: char) -> int {
    c as int - '0' as int
}

/// Whether every character of `s` is a decimal digit.
pub open spec fn all_digits(s: Seq<char>) -> bool {
    forall|i: int| 0 <= i < s.len() ==> is_digit(#[trigger] s[i])
}

/// The value of a string of decimal digits, most significant first.
pub open spec fn dec_val(s: Seq<char>) -> int
    decreases s.len(),
{
    if s.len() == 0 {
        0
    } else {
        dec_val(s.drop_last()) * 10 + digit_val(s[s.len() - 1])
    }
}

/// A digit string's value is non-negative.
pub proof fn lemma_dec_val_nonneg(s: Seq<char>)
    requires
        all_digits(s),
    ensures
        dec_val(s) >= 0,
    decreases s.len(),
{
    if s.len() > 0 {
        assert(all_digits(s.drop_last()));
        lemma_dec_val_nonneg(s.drop_last());
    }
}

/// Extending a digit string cannot decrease its value.
pub proof fn lemma_dec_val_prefix(s: Seq<char>, k: int)
    requires
        all_digits(s),
        0 <= k <= s.len(),
    ensures
        dec_val(s.subrange(0, k)) <= dec_val(s),
    decreases s.len() - k,
{
    if k < s.len() {
        let t = s.subrange(0, k + 1);
        assert(t.drop_last() =~= s.subrange(0, k));
        assert(all_digits(t));
        lemma_dec_val_nonneg(t.drop_last());
        lemma_dec_val_prefix(s, k + 1);
        assert(dec_val(t) == dec_val(s.subrange(0, k)) * 10 + digit_val(s[k]));
        assert(dec_val(s.subrange(0, k)) * 10 >= dec_val(s.subrange(0, k))) by (nonlinear_arith)
            requires
                dec_val(s.subrange(0, k)) >= 0,
        ;
        lemma_dec_val_nonneg(s.subrange(0, k));
    } else {
        assert(s.subrange(0, k) =~= s);
    }
}

/// The sign and digit part of an optionally signed decimal string: `+` and
/// `-` prefixes are recognized, everything else is taken as the digit part.
pub open spec fn sign_of(s: Seq<char>) -> bool {
    s.len() > 0 && s[0] == '-'
}

/// The digits of an optionally signed decimal string.
pub open spec fn digits_of(s: Seq<char>) -> Seq<char> {
    if s.len() > 0 && (s[0] == '-' || s[0] == '+') {
        s.drop_first()
    } else {
        s
    }
}

/// Whether `s` is a well-formed unsigned decimal numeral (an optional `+`,
/// then at least one digit) whose value fits in `u32`.
pub open spec fn parses_u32(s: Seq<char>) -> bool {
    let d = digits_of(s);
    &&& !sign_of(s)
    &&& d.len() > 0
    &&& all_digits(d)
    &&& dec_val(d) <= u32::MAX
}

/// The value of a well-formed unsigned numeral.
pub open spec fn u32_val(s: Seq<char>) -> int {
    dec_val(digits_of(s))
}

/// Whether `s` is a well-formed signed decimal numeral whose value fits in
/// `i64`.
pub open spec fn parses_i64(s: Seq<char>) -> bool {
    let d = digits_of(s);
    &&& d.len() > 0
    &&& all_digits(d)
    &&& (if sign_of(s) {
        dec_val(d) <= i64::MAX + 1
    } else {
        dec_val(d) <= i64::MAX
    })
}

/// The value of a well-formed signed numeral.
pub open spec fn i64_val(s: Seq<char>) -> int {
    if sign_of(s) {
        -dec_val(digits_of(s))
    } else {
        dec_val(digits_of(s))
    }
}

/// The characters of `s`, as a vector.
pub fn chars_of(s: &str) -> (v: Vec<char>)
    ensures
        v@ == s@,
{
    let n = s.unicode_len();
    let mut v: Vec<char> = Vec::new();
    let mut i: usize = 0;
    while i < n
        invariant
            i <= n,
            n == s@.len(),
            v@ == s@.subrange(0, i as int),
        decreases n - i,
    {
        v.push(s.get_char(i));
        proof {
            assert(v@ =~= s@.subrange(0, i + 1));
        }
        i = i + 1;
    }
    proof {
        assert(s@.subrange(0, s@.len() as int) =~= s@);
    }
    v
}

/// Whether the characters equal the given literal.
pub fn eq_lit(v: &[char], lit: &str) -> (r: bool)
    ensures
        r == (v@ == lit@),
{
    let n = lit.unicode_len();
    if v.len() != n {
        proof {
            assert(v@.len() != lit@.len());
        }
        return false;
    }
    let mut i: usize = 0;
    while i < n
        invariant
            i <= n,
            n == lit@.len(),
            v@.len() == n,
            forall|j: int| 0 <= j < i ==> v@[j] == lit@[j],
        decreases n - i,
    {
        if v[i] != lit.get_char(i) {
            return false;
        }
        i = i + 1;
    }
    proof {
        assert(v@ =~= lit@);
    }
    true
}

/// The input without leading and trailing whitespace.
pub fn trim_slice<'a>(v: &'a [char]) -> (r: &'a [char])
    ensures
        r@ == trim_spec(v@),
{
    let mut start: usize = 0;
    let mut end: usize = v.len();
    proof {
        assert(v@.subrange(0, v@.len() as int) =~= v@);
    }
    while start < end && (v[start] == ' ' || v[start] == '\t' || v[start] == '\r' || v[start]
        == '\n')
        invariant
            0 <= start <= end <= v@.len(),
            end == v@.len(),
            trim_left(v@) == trim_left(v@.subrange(start as int, end as int)),
        decreases end - start,
    {
        proof {
            assert(v@.subrange(start as int, end as int).drop_first() =~= v@.subrange(
                start + 1,
                end as int,
            ));
        }
        start = start + 1;
    }
    proof {
        assert(trim_left(v@.subrange(start as int, end as int)) == v@.subrange(
            start as int,
            end as int,
        ));
    }
    while start < end && (v[end - 1] == ' ' || v[end - 1] == '\t' || v[end - 1] == '\r' || v[end
        - 1] == '\n')
        invariant
            0 <= start <= end <= v@.len(),
            trim_spec(v@) == trim_right(v@.subrange(start as int, end as int)),
        decreases end - start,
    {
        proof {
            assert(v@.subrange(start as int, end as int).drop_last() =~= v@.subrange(
                start as int,
                end - 1,
            ));
        }
        end = end - 1;
    }
    proof {
        assert(trim_right(v@.subrange(start as int, end as int)) == v@.subrange(
            start as int,
            end as int,
        ));
    }
    slice_subrange(v, start, end)
}

/// The fields of the input, cut at every occurrence of `sep`.
pub fn split_slice<'a>(v: &'a [char], sep: char) -> (parts: Vec<&'a [char]>)
    ensures
        parts@.map_values(|p: &[char]| p@) == split_spec(v@, sep),
{
    let n = v.len();
    let mut parts: Vec<&[char]> = Vec::new();
    let mut start: usize = 0;
    let mut i: usize = 0;
    proof {
        assert(v@.subrange(0, n as int) =~= v@);
        assert(parts@.map_values(|p: &[char]| p@) + split_spec(v@, sep) =~= split_spec(v@, sep));
    }
    while i < n
        invariant
            0 <= start <= i <= n,
            n == v@.len(),
            forall|j: int| start <= j < i ==> v@[j] != sep,
            split_spec(v@, sep) == parts@.map_values(|p: &[char]| p@) + split_spec(
                v@.subrange(start as int, n as int),
                sep,
            ),
        decreases n - i,
    {
        if v[i] == sep {
            let field = slice_subrange(v, start, i);
            proof {
                let rest = v@.subrange(start as int, n as int);
                lemma_sep_index_is(rest, sep, i - start);
                assert(rest.subrange(0, i - start) =~= v@.subrange(start as int, i as int));
                assert(rest.subrange(i - start + 1, rest.len() as int) =~= v@.subrange(
                    i + 1,
                    n as int,
                ));
                assert((parts@.push(field)).map_values(|p: &[char]| p@) =~= parts@.map_values(
                    |p: &[char]| p@,
                ).push(field@));
                assert(parts@.map_values(|p: &[char]| p@) + split_spec(rest, sep)
                    =~= parts@.map_values(|p: &[char]| p@).push(field@) + split_spec(
                    v@.subrange(i + 1, n as int),
                    sep,
                ));
            }
            parts.push(field);
            start = i + 1;
        }
        i = i + 1;
    }
    let field = slice_subrange(v, start, n);
    proof {
        let rest = v@.subrange(start as int, n as int);
        lemma_sep_index_is(rest, sep, n - start);
        assert((parts@.push(field)).map_values(|p: &[char]| p@) =~= parts@.map_values(
            |p: &[char]| p@,
        ).push(field@));
        assert(parts@.map_values(|p: &[char]| p@) + split_spec(rest, sep) =~= parts@.map_values(
            |p: &[char]| p@,
        ).push(field@));
    }
    parts.push(field);
    parts
}

/// Lower-case folding of the input, over the ASCII letters.
pub fn lower_slice(v: &[char]) -> (r: Vec<char>)
    ensures
        r@ == lower_spec(v@),
{
    let mut r: Vec<char> = Vec::new();
    let mut i: usize = 0;
    while i < v.len()
        invariant
            i <= v@.len(),
            r@ == lower_spec(v@.subrange(0, i as int)),
        decreases v@.len() - i,
    {
        let c = v[i];
        if 'A' <= c && c <= 'Z' {
            r.push(((c as u8) + 32) as char);
        } else {
            r.push(c);
        }
        proof {
            assert(r@ =~= lower_spec(v@.subrange(0, i + 1)));
        }
        i = i + 1;
    }
    proof {
        assert(v@.subrange(0, v@.len() as int) =~= v@);
    }
    r
}

/// Parses an unsigned decimal numeral (optional `+`, then digits) into a
/// `u32`; `None` exactly when the input is malformed or out of range.
pub fn parse_u32_chars(v: &[char]) -> (r: Option<u32>)
    ensures
        r is Some <==> parses_u32(v@),
        r is Some ==> r->0 == u32_val(v@),
{
    let n = v.len();
    let mut start: usize = 0;
    if n > 0 && v[0] == '-' {
        return None;
    }
    if n > 0 && v[0] == '+' {
        start = 1;
        proof {
            assert(digits_of(v@) =~= v@.subrange(1, n as int));
        }
    } else {
        proof {
            assert(digits_of(v@) =~= v@.subrange(0, n as int));
            assert(v@.subrange(0, n as int) =~= v@);
        }
    }
    if start == n {
        return None;
    }
    let ghost d = digits_of(v@);
    let mut acc: u32 = 0;
    let mut i: usize = start;
    while i < n
        invariant
            start <= i <= n,
            n == v@.len(),
            d == digits_of(v@),
            d.len() == n - start,
            forall|j: int| 0 <= j < d.len() ==> d[j] == v@[start + j],
            all_digits(d.subrange(0, i - start)),
            acc == dec_val(d.subrange(0, i - start)),
        decreases n - i,
    {
        let c = v[i];
        if !('0' <= c && c <= '9') {
            proof {
                assert(d[i - start] == v@[i as int]);
                assert(!is_digit(d[i - start]));
            }
            return None;
        }
        let digit: u32 = (c as u32) - 48;
        if acc > (u32::MAX - digit) / 10 {
            proof {
                let p = d.subrange(0, i - start + 1);
                assert(p.drop_last() =~= d.subrange(0, i - start));
                assert(p[p.len() - 1] == d[i - start] == v@[i as int]);
                assert(10 * ((u32::MAX - digit) / 10) + 9 >= u32::MAX - digit);
                assert(dec_val(p) == acc * 10 + digit > u32::MAX);
                if all_digits(d) {
                    lemma_dec_val_prefix(d, i - start + 1);
                }
            }
            return None;
        }
        proof {
            let p = d.subrange(0, i - start + 1);
            assert(p.drop_last() =~= d.subrange(0, i - start));
        }
        acc = acc * 10 + digit;
        i = i + 1;
    }
    proof {
        assert(d.subrange(0, d.len() as int) =~= d);
    }
    Some(acc)
}

/// Parses a signed decimal numeral (optional `+` or `-`, then digits) into
/// an `i64`; `None` exactly when the input is malformed or out of range.
pub fn parse_i64_chars(v: &[char]) -> (r: Option<i64>)
    ensures
        r is Some <==> parses_i64(v@),
        r is Some ==> r->0 == i64_val(v@),
{
    let n = v.len();
    let mut start: usize = 0;
    let mut negative: bool = false;
    if n > 0 && (v[0] == '+' || v[0] == '-') {
        negative = v[0] == '-';
        start = 1;
        proof {
            assert(digits_of(v@) =~= v@.subrange(1, n as int));
        }
    } else {
        proof {
            assert(digits_of(v@) =~= v@.subrange(0, n as int));
            assert(v@.subrange(0, n as int) =~= v@);
        }
    }
    if start == n {
        return None;
    }
    let limit: u64 = if negative {
        (i64::MAX as u64) + 1
    } else {
        i64::MAX as u64
    };
    let ghost d = digits_of(v@);
    let mut acc: u64 = 0;
    let mut i: usize = start;
    while i < n
        invariant
            start <= i <= n,
            n == v@.len(),
            d == digits_of(v@),
            d.len() == n - start,
            negative == sign_of(v@),
            limit == (if negative {
                i64::MAX + 1
            } else {
                i64::MAX as int
            }),
            forall|j: int| 0 <= j < d.len() ==> d[j] == v@[start + j],
            all_digits(d.subrange(0, i - start)),
            acc == dec_val(d.subrange(0, i - start)),
            acc <= limit,
        decreases n - i,
    {
        let c = v[i];
        if !('0' <= c && c <= '9') {
            proof {
                assert(d[i - start] == v@[i as int]);
                assert(!is_digit(d[i - start]));
            }
            return None;
        }
        let digit: u64 = (c as u64) - 48;
        if acc > (limit - digit) / 10 {
            proof {
                let p = d.subrange(0, i - start + 1);
                assert(p.drop_last() =~= d.subrange(0, i - start));
                assert(p[p.len() - 1] == d[i - start] == v@[i as int]);
                assert(10 * ((limit - digit) / 10) + 9 >= limit - digit);
                assert(dec_val(p) == acc * 10 + digit > limit);
                if all_digits(d) {
                    lemma_dec_val_prefix(d, i - start + 1);
                }
            }
            return None;
        }
        proof {
            let p = d.subrange(0, i - start + 1);
            assert(p.drop_last() =~= d.subrange(0, i - start));
        }
        acc = acc * 10 + digit;
        i = i + 1;
    }
    proof {
        assert(d.subrange(0, d.len() as int) =~= d);
    }
    if negative {
        if acc == (i64::MAX as u64) + 1 {
            Some(i64::MIN)
        } else {
            Some(-(acc as i64))
        }
    } else {
        Some(acc as i64)
    }
}


/// Whether two strings hold the same characters.
pub fn str_eq(a: &str, b: &str) -> (r: bool)
    ensures
        r == (a@ == b@),
{
    let n = a.unicode_len();
    if n != b.unicode_len() {
        proof {
            assert(a@.len() != b@.len());
        }
        return false;
    }
    let mut i: usize = 0;
    while i < n
        invariant
            i <= n,
            n == a@.len(),
            n == b@.len(),
            forall|j: int| 0 <= j < i ==> a@[j] == b@[j],
        decreases n - i,
    {
        if a.get_char(i) != b.get_char(i) {
            return false;
        }
        i = i + 1;
    }
    proof {
        assert(a@ =~= b@);
    }
    true
}


/// The digit character for a value below ten.
pub open spec fn digit_char(d: int) -> char {
    (48 + d) as char
}

/// The decimal digits of a non-negative number, most significant first,
/// without leading zeros (a single `0` for zero).
pub open spec fn dec_chars(n: int) -> Seq<char>
    decreases n,
{
    if n < 10 {
        seq![digit_char(n)]
    } else {
        dec_chars(n / 10).push(digit_char(n % 10))
    }
}

/// A decimal rendering reads back as the number it renders.
pub proof fn lemma_dec_chars_val(n: int)
    requires
        n >= 0,
    ensures
        all_digits(dec_chars(n)),
        dec_chars(n).len() >= 1,
        dec_val(dec_chars(n)) == n,
    decreases n,
{
    if n < 10 {
        let s = dec_chars(n);
        assert(digit_char(n) as int == 48 + n);
        assert(is_digit(digit_char(n)));
        assert(s.drop_last() =~= Seq::<char>::empty());
        assert(dec_val(Seq::<char>::empty()) == 0);
        assert(s[s.len() - 1] == digit_char(n));
        assert(digit_val(digit_char(n)) == n);
        assert(dec_val(s) == 0 * 10 + n);
    } else {
        lemma_dec_chars_val(n / 10);
        let s = dec_chars(n);
        assert(digit_char(n % 10) as int == 48 + n % 10);
        assert(is_digit(digit_char(n % 10)));
        assert(s.drop_last() =~= dec_chars(n / 10));
        assert(s[s.len() - 1] == digit_char(n % 10));
        assert(digit_val(digit_char(n % 10)) == n % 10);
        assert(dec_val(s) == dec_val(dec_chars(n / 10)) * 10 + n % 10);
        assert((n / 10) * 10 + n % 10 == n) by {
            vstd::arithmetic::div_mod::lemma_fundamental_div_mod(n, 10);
        }
        assert forall|i: int| 0 <= i < s.len() implies is_digit(#[trigger] s[i]) by {
            if i < s.len() - 1 {
                assert(s[i] == dec_chars(n / 10)[i]);
            }
        }
    }
}

/// A leading zero does not change a numeral's value.
pub proof fn lemma_leading_zero(s: Seq<char>)
    ensures
        dec_val(seq!['0'] + s) == dec_val(s),
    decreases s.len(),
{
    let z = seq!['0'] + s;
    if s.len() == 0 {
        assert(z =~= seq!['0']);
        assert(z.drop_last() =~= Seq::<char>::empty());
        assert(dec_val(Seq::<char>::empty()) == 0);
        assert(z[z.len() - 1] == '0');
        assert(digit_val('0') == 0);
        assert(dec_val(z) == 0 * 10 + 0);
    } else {
        assert(z.drop_last() =~= seq!['0'] + s.drop_last());
        lemma_leading_zero(s.drop_last());
        assert(z[z.len() - 1] == s[s.len() - 1]);
        assert(dec_val(z) == dec_val(seq!['0'] + s.drop_last()) * 10 + digit_val(s[s.len() - 1]));
        assert(dec_val(s) == dec_val(s.drop_last()) * 10 + digit_val(s[s.len() - 1]));
    }
}

/// The one-character string for a digit.
fn digit_str(d: u32) -> (r: &'static str)
    requires
        d < 10,
    ensures
        r@ =~= seq![digit_char(d as int)],
{
    proof {
        reveal_strlit("0");
        reveal_strlit("1");
        reveal_strlit("2");
        reveal_strlit("3");
        reveal_strlit("4");
        reveal_strlit("5");
        reveal_strlit("6");
        reveal_strlit("7");
        reveal_strlit("8");
        reveal_strlit("9");
    }
    match d {
        0 => "0",
        1 => "1",
        2 => "2",
        3 => "3",
        4 => "4",
        5 => "5",
        6 => "6",
        7 => "7",
        8 => "8",
        _ => "9",
    }
}

/// The decimal rendering of a number.
pub fn format_u32(n: u32) -> (s: String)
    ensures
        s@ == dec_chars(n as int),
    decreases n,
{
    if n < 10 {
        let mut s = String::new();
        s.append(digit_str(n));
        proof {
            assert(s@ =~= dec_chars(n as int));
        }
        s
    } else {
        let mut s = format_u32(n / 10);
        s.append(digit_str(n % 10));
        proof {
            assert(s@ =~= dec_chars(n as int));
        }
        s
    }
}


/// `k` zero characters.
pub open spec fn zeros(k: int) -> Seq<char>
    decreases k,
{
    if k <= 0 {
        Seq::empty()
    } else {
        seq!['0'] + zeros(k - 1)
    }
}

/// The decimal digits of a number, left-padded with zeros to at least
/// `width` characters.
pub open spec fn padded_chars(n: int, width: int) -> Seq<char> {
    let d = dec_chars(n);
    if d.len() >= width {
        d
    } else {
        zeros(width - d.len()) + d
    }
}

/// Leading zeros change neither a numeral's digits-only shape nor its
/// value.
pub proof fn lemma_zeros_prefix(k: int, s: Seq<char>)
    requires
        all_digits(s),
    ensures
        all_digits(zeros(k) + s),
        dec_val(zeros(k) + s) == dec_val(s),
        (zeros(k) + s).len() == (if k <= 0 {
            s.len() as int
        } else {
            s.len() + k
        }),
    decreases k,
{
    if k <= 0 {
        assert(zeros(k) + s =~= s);
    } else {
        lemma_zeros_prefix(k - 1, s);
        assert(zeros(k) + s =~= seq!['0'] + (zeros(k - 1) + s));
        lemma_leading_zero(zeros(k - 1) + s);
        assert forall|i: int| 0 <= i < (zeros(k) + s).len() implies is_digit(
            #[trigger] (zeros(k) + s)[i],
        ) by {
            if i == 0 {
                assert((zeros(k) + s)[0] == '0');
            } else {
                assert((zeros(k) + s)[i] == (zeros(k - 1) + s)[i - 1]);
            }
        }
    }
}

/// A zero-padded rendering is all digits, at least `width` long, and reads
/// back as the number it renders.
pub proof fn lemma_padded_val(n: int, width: int)
    requires
        n >= 0,
    ensures
        all_digits(padded_chars(n, width)),
        padded_chars(n, width).len() >= width,
        padded_chars(n, width).len() >= 1,
        dec_val(padded_chars(n, width)) == n,
{
    lemma_dec_chars_val(n);
    if dec_chars(n).len() < width {
        lemma_zeros_prefix(width - dec_chars(n).len(), dec_chars(n));
    }
}

/// The zero-padded decimal rendering of a number.
pub fn format_padded(n: u32, width: usize) -> (s: String)
    ensures
        s@ == padded_chars(n as int, width as int),
{
    let digits = format_u32(n);
    let mut s = String::new();
    let mut k: usize = digits.unicode_len();
    proof {
        assert(s@ =~= zeros(0));
    }
    while k < width
        invariant
            digits@ == dec_chars(n as int),
            k >= digits@.len(),
            k <= width || k == digits@.len(),
            s@ == zeros(k - digits@.len()),
        decreases width - k,
    {
        let mut z = String::new();
        z.append("0");
        z.append(s.as_str());
        s = z;
        proof {
            reveal_strlit("0");
            assert(zeros(k + 1 - digits@.len()) =~= seq!['0'] + zeros(k - digits@.len()));
            assert(s@ =~= zeros(k + 1 - digits@.len()));
        }
        k = k + 1;
    }
    s.append(digits.as_str());
    proof {
        assert(zeros(0) =~= Seq::<char>::empty());
        if dec_chars(n as int).len() >= width {
            assert(s@ =~= dec_chars(n as int));
        } else {
            assert(s@ =~= zeros(width - dec_chars(n as int).len()) + dec_chars(n as int));
        }
    }
    s
}

} // verus!
