//! Text helpers: decimal numerals, integer parsing, substring search and
//! replacement, all over the characters of a string.

use vstd::prelude::*;

verus! {

/// Appends one character: std's `String::push`, documented as appending the
/// given `char` to the end of the string.
#[verifier::external_body]
pub(crate) fn push_char(s: &mut String, c: char)
    ensures
        final(s)@ == old(s)@.push(c),
{
    s.push(c);
}

/// The characters of a string, in order.
pub fn chars_of(s: &str) -> (r: Vec<char>)
    ensures
        r@ == s@,
{
    let mut out: Vec<char> = Vec::new();
    let n = s.unicode_len();
    for i in 0..n
        invariant
            n == s@.len(),
            out@ == s@.take(i as int),
    {
        out.push(s.get_char(i));
        assert(out@ =~= s@.take(i + 1));
    }
    assert(out@ =~= s@);
    out
}

/// A string holding the given characters.
pub fn string_of(cs: &[char]) -> (r: String)
    ensures
        r@ == cs@,
{
    let mut out = String::new();
    for i in 0..cs.len()
        invariant
            out@ == cs@.take(i as int),
    {
        push_char(&mut out, cs[i]);
        assert(out@ =~= cs@.take(i + 1));
    }
    assert(out@ =~= cs@);
    out
}

/// The decimal digit character for `d < 10`.
pub open spec fn digit_char(d: nat) -> char {
    (48 + d) as char
}

/// The decimal numeral of a natural number, without leading zeros.
pub open spec fn decimal(n: nat) -> Seq<char>
    decreases n,
{
    if n < 10 {
        seq![digit_char(n)]
    } else {
        decimal(n / 10).push(digit_char(n % 10))
    }
}

/// The decimal numeral of an integer, with a leading `-` when negative.
pub open spec fn int_decimal(i: int) -> Seq<char> {
    if i < 0 {
        seq!['-'] + decimal((-i) as nat)
    } else {
        decimal(i as nat)
    }
}

fn digit(d: u128) -> (c: char)
    requires
        d < 10,
    ensures
        c == digit_char(d as nat),
{
    let b: u8 = 48u8 + (d as u8);
    b as char
}

/// Appends the decimal numeral of `n`.
pub fn push_decimal(s: &mut String, n: u128)
    ensures
        final(s)@ == old(s)@ + decimal(n as nat),
    decreases n,
{
    if n >= 10 {
        push_decimal(s, n / 10);
    }
    push_char(s, digit(n % 10));
    assert(final(s)@ =~= old(s)@ + decimal(n as nat));
}

/// The decimal numeral of an unsigned integer (`to_string`).
pub fn u128_to_string(n: u128) -> (r: String)
    ensures
        r@ == decimal(n as nat),
{
    let mut s = String::new();
    push_decimal(&mut s, n);
    assert(s@ =~= decimal(n as nat));
    s
}

/// The decimal numeral of a signed integer (`to_string`).
pub fn i64_to_string(i: i64) -> (r: String)
    ensures
        r@ == int_decimal(i as int),
{
    let mut s = String::new();
    if i < 0 {
        push_char(&mut s, '-');
        let wide: i128 = i as i128;
        let mag: u128 = (0i128 - wide) as u128;
        push_decimal(&mut s, mag);
    } else {
        push_decimal(&mut s, i as u128);
    }
    assert(s@ =~= int_decimal(i as int));
    s
}

pub open spec fn is_digit(c: char) -> bool {
    '0' <= c && c <= '9'
}

/// The value of a string of decimal digits.
pub open spec fn digits_value(s: Seq<char>) -> nat
    decreases s.len(),
{
    if s.len() == 0 {
        0
    } else {
        digits_value(s.drop_last()) * 10 + ((s.last() as nat) - 48) as nat
    }
}

/// The digits after an optional leading sign.
pub open spec fn unsigned_part(s: Seq<char>) -> Seq<char> {
    if s.len() > 0 && (s[0] == '-' || s[0] == '+') {
        s.drop_first()
    } else {
        s
    }
}

/// What `str::parse::<i64>` returns: a sign (`+` or `-`) may lead, then one
/// or more ASCII digits and nothing else, and the value must fit.
pub open spec fn parse_i64(s: Seq<char>) -> Option<i64> {
    let body = unsigned_part(s);
    let negative = s.len() > 0 && s[0] == '-';
    if body.len() == 0 || !(forall|k: int| 0 <= k < body.len() ==> is_digit(#[trigger] body[k])) {
        None
    } else {
        let v: int = if negative {
            -(digits_value(body) as int)
        } else {
            digits_value(body) as int
        };
        if i64::MIN <= v && v <= i64::MAX {
            Some(v as i64)
        } else {
            None
        }
    }
}

/// Parses a decimal integer as `str::parse::<i64>` does.
pub fn parse_i64_exec(s: &str) -> (r: Option<i64>)
    ensures
        r == parse_i64(s@),
{
    let cs = chars_of(s);
    let n = cs.len();
    let mut start: usize = 0;
    let mut negative = false;
    if n > 0 && (cs[0] == '-' || cs[0] == '+') {
        start = 1;
        negative = cs[0] == '-';
    }
    let ghost body = unsigned_part(s@);
    assert(body =~= cs@.subrange(start as int, n as int));
    if start == n {
        return None;
    }
    // The magnitude so far, saturated at `cap`.
    let cap: u128 = 0x8000_0000_0000_0001u128;
    let mut mag: u128 = 0;
    let mut i = start;
    while i < n
        invariant
            start <= i <= n,
            n == cs@.len(),
            body == cs@.subrange(start as int, n as int),
            body == unsigned_part(s@),
            cap == 0x8000_0000_0000_0001u128,
            mag <= cap,
            forall|k: int| start <= k < i ==> is_digit(#[trigger] cs@[k]),
            mag == if digits_value(cs@.subrange(start as int, i as int)) < cap {
                digits_value(cs@.subrange(start as int, i as int))
            } else {
                cap as nat
            },
        decreases n - i,
    {
        let c = cs[i];
        if !('0' <= c && c <= '9') {
            assert(body[i - start] == c);
            assert(!is_digit(body[i - start]));
            return None;
        }
        let d: u128 = (c as u32 - 48u32) as u128;
        assert(cs@.subrange(start as int, i + 1).drop_last() =~= cs@.subrange(start as int, i as int));
        let next: u128 = mag * 10 + d;
        mag = if next < cap { next } else { cap };
        i = i + 1;
    }
    assert(cs@.subrange(start as int, n as int) == body);
    assert forall|k: int| 0 <= k < body.len() implies is_digit(#[trigger] body[k]) by {
        assert(body[k] == cs@[start + k]);
    }
    if negative {
        if mag <= 0x8000_0000_0000_0000u128 {
            let m: i128 = mag as i128;
            Some((0i128 - m) as i64)
        } else {
            None
        }
    } else {
        if mag <= 0x7fff_ffff_ffff_ffffu128 {
            Some(mag as i64)
        } else {
            None
        }
    }
}

/// `p` occurs in `s` at position `i`.
pub open spec fn occurs_at(s: Seq<char>, p: Seq<char>, i: int) -> bool {
    0 <= i && i + p.len() <= s.len() && s.subrange(i, i + p.len()) == p
}

/// `str::contains` with a string pattern: some occurrence exists (the empty
/// pattern occurs everywhere).
pub open spec fn contains_text(s: Seq<char>, p: Seq<char>) -> bool {
    exists|i: int| occurs_at(s, p, i)
}

/// Whether `p` occurs in `s` at position `i`.
pub fn occurs_at_exec(s: &[char], p: &[char], i: usize) -> (r: bool)
    ensures
        r == occurs_at(s@, p@, i as int),
{
    if p.len() > s.len() || i > s.len() - p.len() {
        return false;
    }
    for j in 0..p.len()
        invariant
            i + p.len() <= s.len(),
            forall|k: int| 0 <= k < j ==> s@[i + k] == p@[k],
    {
        if s[i + j] != p[j] {
            assert(s@.subrange(i as int, i + p.len())[j as int] != p@[j as int]);
            return false;
        }
    }
    assert(s@.subrange(i as int, i + p.len()) =~= p@);
    true
}

/// Substring search, as `str::contains`.
pub fn contains_exec(s: &[char], p: &[char]) -> (r: bool)
    ensures
        r == contains_text(s@, p@),
{
    if p.len() > s.len() {
        return false;
    }
    let last = s.len() - p.len();
    for i in 0..last
        invariant
            last == s.len() - p.len(),
            forall|k: int| 0 <= k < i ==> !occurs_at(s@, p@, k),
    {
        if occurs_at_exec(s, p, i) {
            return true;
        }
    }
    if occurs_at_exec(s, p, last) {
        return true;
    }
    false
}

/// `str::replace`: every non-overlapping occurrence of `from`, scanning from
/// the left, is replaced by `to`; an empty `from` matches before every
/// character and at the end.
pub open spec fn replaced(s: Seq<char>, from: Seq<char>, to: Seq<char>) -> Seq<char>
    decreases s.len(),
{
    if from.len() == 0 {
        if s.len() == 0 {
            to
        } else {
            to + seq![s[0]] + replaced(s.drop_first(), from, to)
        }
    } else if s.len() < from.len() {
        s
    } else if s.subrange(0, from.len() as int) == from {
        to + replaced(s.skip(from.len() as int), from, to)
    } else {
        seq![s[0]] + replaced(s.drop_first(), from, to)
    }
}

/// Appends characters to a buffer.
pub fn append_chars(out: &mut Vec<char>, xs: &[char])
    ensures
        final(out)@ == old(out)@ + xs@,
{
    for k in 0..xs.len()
        invariant
            out@ == old(out)@ + xs@.take(k as int),
    {
        out.push(xs[k]);
        assert(out@ =~= old(out)@ + xs@.take(k + 1));
    }
    assert(xs@.take(xs.len() as int) =~= xs@);
}

/// Replaces occurrences as `str::replace` does.
pub fn replace_exec(s: &[char], from: &[char], to: &[char]) -> (r: Vec<char>)
    ensures
        r@ == replaced(s@, from@, to@),
{
    let mut out: Vec<char> = Vec::new();
    let n = s.len();
    let flen = from.len();
    let mut i: usize = 0;
    assert(s@.skip(0) =~= s@);
    while i < n
        invariant
            n == s@.len(),
            flen == from@.len(),
            i <= n,
            out@ + replaced(s@.skip(i as int), from@, to@) == replaced(s@, from@, to@),
        decreases n - i,
    {
        let ghost rest = s@.skip(i as int);
        let ghost before = out@;
        if flen == 0 {
            assert(rest.drop_first() =~= s@.skip(i + 1));
            assert(rest[0] == s@[i as int]);
            append_chars(&mut out, to);
            out.push(s[i]);
            assert(out@ =~= before + to@ + seq![rest[0]]);
            assert(out@ + replaced(s@.skip(i + 1), from@, to@) =~= before + replaced(rest, from@, to@));
            i = i + 1;
        } else if n - i >= flen && occurs_at_exec(s, from, i) {
            assert(rest.subrange(0, flen as int) =~= s@.subrange(i as int, i + flen));
            assert(rest.skip(flen as int) =~= s@.skip(i + flen));
            append_chars(&mut out, to);
            assert(out@ + replaced(s@.skip(i + flen), from@, to@) =~= before + replaced(rest, from@, to@));
            i = i + flen;
        } else {
            assert(rest.drop_first() =~= s@.skip(i + 1));
            assert(rest[0] == s@[i as int]);
            proof {
                if rest.len() >= flen {
                    assert(rest.subrange(0, flen as int) =~= s@.subrange(i as int, i + flen));
                } else {
                    assert(rest =~= seq![rest[0]] + rest.drop_first());
                }
            }
            out.push(s[i]);
            assert(out@ + replaced(s@.skip(i + 1), from@, to@) =~= before + replaced(rest, from@, to@));
            i = i + 1;
        }
    }
    assert(s@.skip(n as int) =~= Seq::<char>::empty());
    if flen == 0 {
        append_chars(&mut out, to);
    }
    out
}

/// The pattern of `LIKE` with its wildcards `%` and `_` removed.
pub open spec fn without_wildcards(p: Seq<char>) -> Seq<char>
    decreases p.len(),
{
    if p.len() == 0 {
        p
    } else {
        let rest = without_wildcards(p.drop_last());
        if p.last() == '%' || p.last() == '_' {
            rest
        } else {
            rest.push(p.last())
        }
    }
}

/// Removes `%` and `_`, as `str::replace(['%', '_'], "")`.
pub fn without_wildcards_exec(p: &[char]) -> (r: Vec<char>)
    ensures
        r@ == without_wildcards(p@),
{
    let mut out: Vec<char> = Vec::new();
    for i in 0..p.len()
        invariant
            out@ == without_wildcards(p@.take(i as int)),
    {
        assert(p@.take(i + 1).drop_last() =~= p@.take(i as int));
        let c = p[i];
        if c != '%' && c != '_' {
            out.push(c);
        }
    }
    assert(p@.take(p.len() as int) =~= p@);
    out
}

/// ASCII lowercasing of one character.
pub open spec fn ascii_lower(c: char) -> char {
    if 'A' <= c && c <= 'Z' {
        ((c as u32) + 32) as char
    } else {
        c
    }
}

/// `name.to_lowercase() == target` for a target made of ASCII lowercase
/// letters other than `k`, digits and `_`: the only characters that
/// lowercase to such a character are itself and its ASCII capital.
pub open spec fn lower_equals(name: Seq<char>, target: Seq<char>) -> bool {
    name.len() == target.len() && forall|i: int|
        0 <= i < name.len() ==> ascii_lower(#[trigger] name[i]) == target[i]
}

pub fn lower_equals_exec(name: &[char], target: &[char]) -> (r: bool)
    ensures
        r == lower_equals(name@, target@),
{
    if name.len() != target.len() {
        return false;
    }
    for i in 0..name.len()
        invariant
            name@.len() == target@.len(),
            forall|k: int| 0 <= k < i ==> ascii_lower(#[trigger] name@[k]) == target@[k],
    {
        let c = name[i];
        let lc = if 'A' <= c && c <= 'Z' {
            let u: u32 = (c as u32) + 32;
            char_from_ascii(u)
        } else {
            c
        };
        if lc != target[i] {
            return false;
        }
    }
    true
}

fn char_from_ascii(u: u32) -> (c: char)
    requires
        u < 128,
    ensures
        c == u as char,
{
    let b: u8 = u as u8;
    b as char
}

/// The numeral of a natural number is made of digits and reads back as
/// the number, and it does not start with a sign.
pub proof fn lemma_decimal_digits(n: nat)
    ensures
        decimal(n).len() > 0,
        forall|k: int| 0 <= k < decimal(n).len() ==> is_digit(#[trigger] decimal(n)[k]),
        digits_value(decimal(n)) == n,
    decreases n,
{
    if n >= 10 {
        lemma_decimal_digits(n / 10);
        let s = decimal(n / 10);
        let c = digit_char(n % 10);
        assert(decimal(n) == s.push(c));
        assert(decimal(n).drop_last() =~= s);
        assert((c as nat) == 48 + n % 10);
        assert(digits_value(decimal(n)) == digits_value(s) * 10 + ((c as nat) - 48) as nat);
        assert((n / 10) * 10 + n % 10 == n) by (nonlinear_arith);
        assert forall|k: int| 0 <= k < decimal(n).len() implies is_digit(#[trigger] decimal(n)[k]) by {
            if k < s.len() {
                assert(decimal(n)[k] == s[k]);
            }
        }
    } else {
        let c = digit_char(n);
        assert((c as nat) == 48 + n);
        assert(decimal(n) == seq![c]);
        assert(decimal(n).drop_last() =~= Seq::<char>::empty());
        assert(decimal(n).last() == c);
        assert(digits_value(decimal(n)) == digits_value(Seq::<char>::empty()) * 10 + ((c as nat) - 48) as nat);
    }
}

/// Parsing the decimal numeral of an integer gives the integer back.
pub proof fn lemma_parse_int_decimal(i: i64)
    ensures
        parse_i64(int_decimal(i as int)) == Some(i),
{
    if i < 0 {
        let m: nat = (-(i as int)) as nat;
        lemma_decimal_digits(m);
        let s = int_decimal(i as int);
        assert(s == seq!['-'] + decimal(m));
        assert(s[0] == '-');
        assert(unsigned_part(s) =~= decimal(m));
    } else {
        let m: nat = i as nat;
        lemma_decimal_digits(m);
        let s = int_decimal(i as int);
        assert(s == decimal(m));
        assert(is_digit(s[0]));
        assert(unsigned_part(s) == s);
    }
}

/// Every character is an ASCII digit.
pub open spec fn all_digits(s: Seq<char>) -> bool {
    forall|k: int| 0 <= k < s.len() ==> is_digit(#[trigger] s[k])
}

/// The position of the first `.` at or after `i`, or the length.
pub open spec fn dot_index(s: Seq<char>, i: int) -> int
    decreases s.len() - i,
{
    if i < 0 || i >= s.len() {
        s.len() as int
    } else if s[i] == '.' {
        i
    } else {
        dot_index(s, i + 1)
    }
}

/// The position of the first `e` or `E` at or after `i`, or the length.
pub open spec fn e_index(s: Seq<char>, i: int) -> int
    decreases s.len() - i,
{
    if i < 0 || i >= s.len() {
        s.len() as int
    } else if s[i] == 'e' || s[i] == 'E' {
        i
    } else {
        e_index(s, i + 1)
    }
}

/// Digits with at most one `.` among them, and at least one digit.
pub open spec fn mantissa_ok(m: Seq<char>) -> bool {
    let d = dot_index(m, 0);
    let before = m.take(d);
    let after = if d < m.len() {
        m.skip(d + 1)
    } else {
        Seq::empty()
    };
    all_digits(before) && all_digits(after) && before.len() + after.len() > 0
}

/// An exponent after its `e`: an optional sign, then one or more digits.
pub open spec fn exponent_ok(x: Seq<char>) -> bool {
    let digits = if x.len() > 0 && (x[0] == '+' || x[0] == '-') {
        x.skip(1)
    } else {
        x
    };
    digits.len() > 0 && all_digits(digits)
}

/// What `str::parse::<f64>` accepts: an optional sign, then `inf`,
/// `infinity` or `nan` in any case, or digits with at most one `.` and at
/// least one digit, optionally followed by `e` or `E`, an optional sign and
/// one or more digits.
pub open spec fn is_float_text(s: Seq<char>) -> bool {
    let body = unsigned_part(s);
    let e = e_index(body, 0);
    ||| lower_equals(body, "inf"@)
    ||| lower_equals(body, "infinity"@)
    ||| lower_equals(body, "nan"@)
    ||| mantissa_ok(body.take(e)) && (e == body.len() || exponent_ok(body.skip(e + 1)))
}

/// Whether a slice of characters is all digits.
fn all_digits_exec(s: &[char], from: usize, to: usize) -> (r: bool)
    requires
        from <= to <= s@.len(),
    ensures
        r == all_digits(s@.subrange(from as int, to as int)),
{
    let mut k = from;
    while k < to
        invariant
            from <= k <= to <= s@.len(),
            all_digits(s@.subrange(from as int, k as int)),
        decreases to - k,
    {
        if !('0' <= s[k] && s[k] <= '9') {
            assert(s@.subrange(from as int, to as int)[k - from] == s@[k as int]);
            return false;
        }
        assert forall|j: int| 0 <= j < k + 1 - from implies is_digit(#[trigger] s@.subrange(from as int, k + 1)[j]) by {
            if j < k - from {
                assert(s@.subrange(from as int, k + 1)[j] == s@.subrange(from as int, k as int)[j]);
            }
        }
        k = k + 1;
    }
    true
}

/// The position of the first character matching `c1` or `c2` at or after
/// `from`, or the length.
fn find_char(s: &[char], from: usize, c1: char, c2: char) -> (r: usize)
    requires
        from <= s@.len(),
    ensures
        from <= r <= s@.len(),
        r < s@.len() ==> (s@[r as int] == c1 || s@[r as int] == c2),
        forall|k: int| from <= k < r ==> s@[k] != c1 && s@[k] != c2,
{
    let mut k = from;
    while k < s.len()
        invariant
            from <= k <= s@.len(),
            forall|j: int| from <= j < k ==> s@[j] != c1 && s@[j] != c2,
        decreases s@.len() - k,
    {
        if s[k] == c1 || s[k] == c2 {
            return k;
        }
        k = k + 1;
    }
    k
}

proof fn lemma_dot_index(s: Seq<char>, i: int, r: int)
    requires
        0 <= i <= r <= s.len(),
        r < s.len() ==> s[r] == '.',
        forall|k: int| i <= k < r ==> s[k] != '.',
    ensures
        dot_index(s, i) == r,
    decreases r - i,
{
    if i < r {
        lemma_dot_index(s, i + 1, r);
    }
}

proof fn lemma_e_index(s: Seq<char>, i: int, r: int)
    requires
        0 <= i <= r <= s.len(),
        r < s.len() ==> (s[r] == 'e' || s[r] == 'E'),
        forall|k: int| i <= k < r ==> s[k] != 'e' && s[k] != 'E',
    ensures
        e_index(s, i) == r,
    decreases r - i,
{
    if i < r {
        lemma_e_index(s, i + 1, r);
    }
}

/// Whether a text (the characters of `body`) is digits with at most one
/// `.` and at least one digit, optionally followed by an exponent.
fn number_ok(body: &Vec<char>) -> (r: bool)
    ensures
        r == ({
            let e = e_index(body@, 0);
            mantissa_ok(body@.take(e)) && (e == body@.len() || exponent_ok(body@.skip(e + 1)))
        }),
{
    let n = body.len();
    let ghost b = body@;
    let e = find_char(body.as_slice(), 0, 'e', 'E');
    proof {
        lemma_e_index(b, 0, e as int);
    }
    let d = find_char(body.as_slice(), 0, '.', '.');
    let dot = if d < e {
        d
    } else {
        e
    };
    let ghost m = b.take(e as int);
    proof {
        if d < e {
            lemma_dot_index(m, 0, d as int);
        } else {
            lemma_dot_index(m, 0, m.len() as int);
        }
    }
    assert(m.take(dot as int) =~= b.subrange(0, dot as int));
    let before_ok = all_digits_exec(body.as_slice(), 0, dot);
    let after_from = if dot < e {
        dot + 1
    } else {
        e
    };
    if dot < e {
        assert(m.skip(dot + 1) =~= b.subrange(dot + 1, e as int));
    } else {
        assert(b.subrange(e as int, e as int) =~= Seq::<char>::empty());
    }
    let after_ok = all_digits_exec(body.as_slice(), after_from, e);
    let mantissa = before_ok && after_ok && (dot > 0 || after_from < e);
    if !mantissa {
        return false;
    }
    if e == n {
        return true;
    }
    let mut x = e + 1;
    if x < n && (body[x] == '+' || body[x] == '-') {
        x = x + 1;
    }
    let ghost xs = b.skip(e + 1);
    if x < n {
        assert(xs.skip(x - e - 1) =~= b.subrange(x as int, n as int));
        assert(xs.skip(x - e - 1) == (if xs.len() > 0 && (xs[0] == '+' || xs[0] == '-') {
            xs.skip(1)
        } else {
            xs
        }));
        all_digits_exec(body.as_slice(), x, n)
    } else {
        false
    }
}

/// Whether `str::parse::<f64>` accepts a text (see [`is_float_text`]).
pub fn is_float_text_exec(s: &str) -> (r: bool)
    ensures
        r == is_float_text(s@),
{
    let cs = chars_of(s);
    let n = cs.len();
    let start: usize = if n > 0 && (cs[0] == '-' || cs[0] == '+') {
        1
    } else {
        0
    };
    let mut body: Vec<char> = Vec::new();
    let mut k = start;
    while k < n
        invariant
            start <= k <= n,
            n == cs@.len(),
            body@ == cs@.subrange(start as int, k as int),
        decreases n - k,
    {
        body.push(cs[k]);
        k = k + 1;
        assert(body@ =~= cs@.subrange(start as int, k as int));
    }
    assert(body@ =~= unsigned_part(s@));
    proof {
        reveal_strlit("inf");
        reveal_strlit("infinity");
        reveal_strlit("nan");
    }
    let inf = chars_of("inf");
    let infinity = chars_of("infinity");
    let nan = chars_of("nan");
    if lower_equals_exec(body.as_slice(), inf.as_slice()) || lower_equals_exec(
        body.as_slice(),
        infinity.as_slice(),
    ) || lower_equals_exec(body.as_slice(), nan.as_slice()) {
        return true;
    }
    number_ok(&body)
}


} // verus!
