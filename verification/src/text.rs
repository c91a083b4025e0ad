use vstd::prelude::*;

verus! {

/// The decimal digit character for `d < 10`.
pub open spec fn digit_char(d: nat) -> char {
    if d < 10 { ((d + 48) as u8) as char } else { '?' }
}

/// Decimal rendering of a natural number, without leading zeros.
pub open spec fn dec(n: nat) -> Seq<char>
    decreases n,
{
    if n < 10 {
        seq![digit_char(n)]
    } else {
        dec(n / 10).push(digit_char(n % 10))
    }
}

/// Decimal rendering of an integer, with a leading '-' when negative.
pub open spec fn dec_int(i: int) -> Seq<char> {
    if i < 0 { seq!['-'] + dec((-i) as nat) } else { dec(i as nat) }
}

/// Upper-case hexadecimal digit for `d < 16`.
pub open spec fn hex_upper_char(d: nat) -> char {
    if d < 10 { digit_char(d) } else if d < 16 { ((d - 10 + 65) as u8) as char } else { '?' }
}

/// Two upper-case hex digits of a byte.
pub open spec fn hex_byte_upper(b: u8) -> Seq<char> {
    seq![hex_upper_char((b / 16) as nat), hex_upper_char((b % 16) as nat)]
}

/// Upper-case hex rendering of a byte sequence, two digits per byte.
pub open spec fn hex_upper(bytes: Seq<u8>) -> Seq<char>
    decreases bytes.len(),
{
    if bytes.len() == 0 {
        Seq::empty()
    } else {
        hex_upper(bytes.drop_last()) + hex_byte_upper(bytes.last())
    }
}

/// Appends one character to a string.
#[verifier::external_body]
pub(crate) fn string_push(s: &mut String, c: char)
    ensures
        final(s)@ == old(s)@.push(c),
{
    s.push(c);
}

/// Copies the characters of a string slice into a vector.
pub fn str_chars(s: &str) -> (out: Vec<char>)
    ensures
        out@ == s@,
{
    let mut out: Vec<char> = Vec::new();
    for c in it: s.chars()
        invariant
            out@ == it.seq().take(it.index() as int),
            it.seq() == s@,
    {
        out.push(c);
    }
    out
}

/// Appends a run of characters to a string.
pub fn push_chars(s: &mut String, t: &[char])
    ensures
        final(s)@ == old(s)@ + t@,
{
    let mut i: usize = 0;
    while i < t.len()
        invariant
            i <= t.len(),
            s@ == old(s)@ + t@.take(i as int),
        decreases t.len() - i,
    {
        string_push(s, t[i]);
        assert(t@.take(i as int).push(t@[i as int]) =~= t@.take(i + 1));
        i = i + 1;
    }
    assert(t@.take(t.len() as int) =~= t@);
}

/// Appends a string slice to a string.
pub fn push_str(s: &mut String, t: &str)
    ensures
        final(s)@ == old(s)@ + t@,
{
    let cs = str_chars(t);
    push_chars(s, cs.as_slice());
}

/// A string holding the given characters.
pub fn string_from_chars(t: &[char]) -> (s: String)
    ensures
        s@ == t@,
{
    let mut s = String::new();
    push_chars(&mut s, t);
    assert(Seq::<char>::empty() + t@ =~= t@);
    s
}

fn digit_of(d: u64) -> (c: char)
    requires
        d < 10,
    ensures
        c == digit_char(d as nat),
{
    let b: u8 = (d as u8) + 48;
    b as char
}

/// Appends the decimal rendering of `n`.
pub fn push_dec(s: &mut String, n: u64)
    ensures
        final(s)@ == old(s)@ + dec(n as nat),
    decreases n,
{
    if n < 10 {
        string_push(s, digit_of(n));
    } else {
        push_dec(s, n / 10);
        string_push(s, digit_of(n % 10));
        assert(old(s)@ + dec((n / 10) as nat) + seq![digit_char((n % 10) as nat)] =~= old(s)@
            + dec(n as nat));
    }
}

/// Appends the decimal rendering of a signed integer.
pub fn push_dec_i64(s: &mut String, i: i64)
    ensures
        final(s)@ == old(s)@ + dec_int(i as int),
{
    if i < 0 {
        string_push(s, '-');
        let wide: i128 = i as i128;
        let mag: u64 = (-wide) as u64;
        push_dec(s, mag);
        assert(old(s)@.push('-') + dec(mag as nat) =~= old(s)@ + dec_int(i as int));
    } else {
        push_dec(s, i as u64);
    }
}

/// Upper-case hex digit of `d < 16`.
pub fn hex_upper_of(d: u8) -> (c: char)
    requires
        d < 16,
    ensures
        c == hex_upper_char(d as nat),
{
    if d < 10 {
        let b: u8 = d + 48;
        b as char
    } else {
        let b: u8 = d - 10 + 65;
        b as char
    }
}

/// Appends the upper-case hex rendering of the bytes.
pub fn push_hex_upper(s: &mut String, bytes: &[u8])
    ensures
        final(s)@ == old(s)@ + hex_upper(bytes@),
{
    let mut i: usize = 0;
    while i < bytes.len()
        invariant
            i <= bytes.len(),
            s@ == old(s)@ + hex_upper(bytes@.take(i as int)),
        decreases bytes.len() - i,
    {
        let b = bytes[i];
        string_push(s, hex_upper_of(b / 16));
        string_push(s, hex_upper_of(b % 16));
        assert(bytes@.take(i + 1).drop_last() =~= bytes@.take(i as int));
        assert(s@ =~= old(s)@ + hex_upper(bytes@.take(i + 1)));
        i = i + 1;
    }
    assert(bytes@.take(bytes.len() as int) =~= bytes@);
}

/// Unicode `White_Space` characters, the ones `char::is_whitespace` accepts.
pub open spec fn is_ws(c: char) -> bool {
    let v = c as u32;
    (0x9 <= v <= 0xD) || v == 0x20 || v == 0x85 || v == 0xA0 || v == 0x1680 || (0x2000 <= v <= 0x200A)
        || v == 0x2028 || v == 0x2029 || v == 0x202F || v == 0x205F || v == 0x3000
}

pub fn is_whitespace(c: char) -> (r: bool)
    ensures
        r == is_ws(c),
{
    let v = c as u32;
    (0x9 <= v && v <= 0xD) || v == 0x20 || v == 0x85 || v == 0xA0 || v == 0x1680 || (0x2000 <= v && v
        <= 0x200A) || v == 0x2028 || v == 0x2029 || v == 0x202F || v == 0x205F || v == 0x3000
}

/// `s` without its leading whitespace.
pub open spec fn trim_start(s: Seq<char>) -> Seq<char>
    decreases s.len(),
{
    if s.len() > 0 && is_ws(s[0]) { trim_start(s.drop_first()) } else { s }
}

/// `s` without its trailing whitespace.
pub open spec fn trim_end(s: Seq<char>) -> Seq<char>
    decreases s.len(),
{
    if s.len() > 0 && is_ws(s.last()) { trim_end(s.drop_last()) } else { s }
}

/// `s` without leading and trailing whitespace.
pub open spec fn trim(s: Seq<char>) -> Seq<char> {
    trim_end(trim_start(s))
}

proof fn lemma_trim_start_step(s: Seq<char>, lo: int)
    requires
        0 <= lo < s.len(),
        is_ws(s[lo]),
    ensures
        trim_start(s.subrange(lo, s.len() as int)) == trim_start(s.subrange(lo + 1, s.len() as int)),
{
    assert(s.subrange(lo, s.len() as int).drop_first() =~= s.subrange(lo + 1, s.len() as int));
}

proof fn lemma_trim_end_step(s: Seq<char>, lo: int, hi: int)
    requires
        0 <= lo < hi <= s.len(),
        is_ws(s[hi - 1]),
    ensures
        trim_end(s.subrange(lo, hi)) == trim_end(s.subrange(lo, hi - 1)),
{
    assert(s.subrange(lo, hi).drop_last() =~= s.subrange(lo, hi - 1));
}

/// The characters of `s` without leading and trailing whitespace.
pub fn trim_chars(s: &[char]) -> (r: Vec<char>)
    ensures
        r@ == trim(s@),
{
    let n = s.len();
    let mut lo: usize = 0;
    proof {
        assert(s@.subrange(0, n as int) =~= s@);
    }
    while lo < n && is_whitespace(s[lo])
        invariant
            lo <= n == s@.len(),
            trim_start(s@) == trim_start(s@.subrange(lo as int, n as int)),
        decreases n - lo,
    {
        proof {
            lemma_trim_start_step(s@, lo as int);
        }
        lo = lo + 1;
    }
    let mut hi: usize = n;
    proof {
        assert(trim_start(s@.subrange(lo as int, n as int)) == s@.subrange(lo as int, n as int));
    }
    while hi > lo && is_whitespace(s[hi - 1])
        invariant
            lo <= hi <= n == s@.len(),
            trim(s@) == trim_end(s@.subrange(lo as int, hi as int)),
        decreases hi - lo,
    {
        proof {
            lemma_trim_end_step(s@, lo as int, hi as int);
        }
        hi = hi - 1;
    }
    let mut r: Vec<char> = Vec::new();
    let mut k: usize = lo;
    while k < hi
        invariant
            lo <= k <= hi <= n == s@.len(),
            r@ == s@.subrange(lo as int, k as int),
        decreases hi - k,
    {
        r.push(s[k]);
        assert(s@.subrange(lo as int, k + 1) =~= s@.subrange(lo as int, k as int).push(s@[k as int]));
        k = k + 1;
    }
    r
}

/// `pre` is a prefix of `s`.
pub open spec fn has_prefix(s: Seq<char>, pre: Seq<char>) -> bool {
    pre.len() <= s.len() && s.subrange(0, pre.len() as int) == pre
}

pub fn starts_with(s: &[char], pre: &str) -> (r: bool)
    ensures
        r == has_prefix(s@, pre@),
{
    let p = str_chars(pre);
    if p.len() > s.len() {
        return false;
    }
    let mut i: usize = 0;
    while i < p.len()
        invariant
            p@ == pre@,
            p.len() <= s.len(),
            i <= p.len(),
            forall|j: int| 0 <= j < i ==> s@[j] == p@[j],
        decreases p.len() - i,
    {
        if s[i] != p[i] {
            assert(s@.subrange(0, p@.len() as int)[i as int] != p@[i as int]);
            return false;
        }
        i = i + 1;
    }
    assert(s@.subrange(0, p@.len() as int) =~= p@);
    true
}

/// The value of digit `c` in base `radix` (at most 36), if it is one.
pub open spec fn digit_value(c: char, radix: u32) -> Option<nat> {
    let v = c as u32;
    let d: int = if 48 <= v <= 57 {
        v - 48
    } else if 97 <= v <= 122 {
        v - 97 + 10
    } else if 65 <= v <= 90 {
        v - 65 + 10
    } else {
        99
    };
    if d < radix { Some(d as nat) } else { None }
}

/// Every character of `ds` is a digit in base `radix`.
pub open spec fn all_digits(ds: Seq<char>, radix: u32) -> bool {
    forall|i: int| 0 <= i < ds.len() ==> #[trigger] digit_value(ds[i], radix) is Some
}

/// The number written by the digits `ds` in base `radix`.
pub open spec fn digits_value(ds: Seq<char>, radix: u32) -> nat
    decreases ds.len(),
{
    if ds.len() == 0 {
        0
    } else {
        digits_value(ds.drop_last(), radix) * (radix as nat) + digit_value(ds.last(), radix).unwrap_or(0)
    }
}

/// The digits of an unsigned integer literal: an optional leading '+' is dropped.
pub open spec fn unsigned_digits(s: Seq<char>) -> Seq<char> {
    if s.len() > 0 && s[0] == '+' { s.drop_first() } else { s }
}

/// What std's unsigned `from_str_radix` gives for `s`, for a type whose
/// largest value is `max`: an optional '+', then one or more digits of the
/// radix, whose value is at most `max`.
pub open spec fn parse_unsigned(s: Seq<char>, radix: u32, max: nat) -> Option<nat> {
    let ds = unsigned_digits(s);
    if ds.len() > 0 && all_digits(ds, radix) && digits_value(ds, radix) <= max {
        Some(digits_value(ds, radix))
    } else {
        None
    }
}

pub fn digit_of_char(c: char, radix: u32) -> (r: Option<u64>)
    requires
        2 <= radix <= 36,
    ensures
        r is Some <==> digit_value(c, radix) is Some,
        r matches Some(d) ==> d == digit_value(c, radix).unwrap() && d < radix,
{
    let v = c as u32;
    let d: u32 = if 48 <= v && v <= 57 {
        v - 48
    } else if 97 <= v && v <= 122 {
        v - 97 + 10
    } else if 65 <= v && v <= 90 {
        v - 65 + 10
    } else {
        99
    };
    if d < radix { Some(d as u64) } else { None }
}

proof fn lemma_digits_value_mono(ds: Seq<char>, radix: u32, i: int)
    requires
        0 <= i <= ds.len(),
        radix >= 2,
    ensures
        digits_value(ds.take(i), radix) <= digits_value(ds, radix),
    decreases ds.len() - i,
{
    if i < ds.len() {
        lemma_digits_value_mono(ds, radix, i + 1);
        assert(ds.take(i + 1).drop_last() =~= ds.take(i));
        assert(digits_value(ds.take(i), radix) * radix >= digits_value(ds.take(i), radix)) by (nonlinear_arith)
            requires radix >= 2;
    } else {
        assert(ds.take(i) =~= ds);
    }
}

/// Parses an unsigned integer the way std's `from_str_radix` does, for a
/// type whose largest value is `max`.
pub fn parse_unsigned_chars(s: &[char], radix: u32, max: u64) -> (r: Option<u64>)
    requires
        2 <= radix <= 36,
    ensures
        r matches Some(v) ==> parse_unsigned(s@, radix, max as nat) == Some(v as nat),
        r is None ==> parse_unsigned(s@, radix, max as nat) is None,
{
    let n = s.len();
    if n == 0 {
        return None;
    }
    let mut i: usize = 0;
    if s[0] == '+' {
        if n == 1 {
            return None;
        }
        i = 1;
    }
    let ghost ds = unsigned_digits(s@);
    let ghost start = i as int;
    proof {
        assert(ds =~= s@.subrange(start, n as int));
    }
    let mut value: u64 = 0;
    while i < n
        invariant
            start <= i <= n == s@.len(),
            start == 0 || start == 1,
            ds == s@.subrange(start, n as int),
            ds == unsigned_digits(s@),
            ds.len() > 0,
            value as nat == digits_value(ds.take(i - start), radix),
            value <= max,
            all_digits(ds.take(i - start), radix),
            2 <= radix <= 36,
        decreases n - i,
    {
        let d = match digit_of_char(s[i], radix) {
            Some(d) => d,
            None => {
                proof {
                    assert(ds[i - start] == s@[i as int]);
                    assert(digit_value(ds[i - start], radix) is None);
                    assert(!all_digits(ds, radix));
                }
                return None;
            },
        };
        proof {
            assert(ds.take(i - start + 1).drop_last() =~= ds.take(i - start));
            assert(ds.take(i - start + 1).last() == s@[i as int]);
        }
        if d > max || value > (max - d) / (radix as u64) {
            proof {
                if d <= max {
                    assert(value * radix + d > max) by (nonlinear_arith)
                        requires value > (max - d) / (radix as int), radix >= 2, d <= max;
                }
                assert(digits_value(ds.take(i - start + 1), radix) == value * radix + d);
                lemma_digits_value_mono(ds, radix, i - start + 1);
                assert(parse_unsigned(s@, radix, max as nat) is None) by {
                    if all_digits(ds, radix) {
                        assert(digits_value(ds, radix) > max);
                    }
                }
            }
            return None;
        }
        proof {
            assert(value * radix + d <= max) by (nonlinear_arith)
                requires value <= (max - d) / (radix as int), radix >= 2, d < radix, d <= max;
        }
        value = value * (radix as u64) + d;
        i = i + 1;
        proof {
            assert forall|j: int| 0 <= j < ds.take(i - start).len() implies #[trigger] digit_value(ds.take(i - start)[j], radix) is Some by {
                if j < i - 1 - start {
                    assert(ds.take(i - start)[j] == ds.take(i - 1 - start)[j]);
                }
            }
        }
    }
    proof {
        assert(ds.take(n - start) =~= ds);
    }
    Some(value)
}

proof fn lemma_digit_char_value(d: nat, radix: u32)
    requires
        d < 10,
        10 <= radix <= 36,
    ensures
        digit_value(digit_char(d), radix) == Some(d),
        digit_char(d) != '+',
{
    assert(((d + 48) as u8) as char as u32 == d + 48);
}

pub proof fn lemma_dec_digits(n: nat)
    ensures
        dec(n).len() > 0,
        dec(n)[0] != '+',
        all_digits(dec(n), 10),
        digits_value(dec(n), 10) == n,
    decreases n,
{
    if n < 10 {
        lemma_digit_char_value(n, 10);
        assert(seq![digit_char(n)].drop_last() =~= Seq::<char>::empty());
        assert(digits_value(Seq::<char>::empty(), 10) == 0);
    } else {
        lemma_dec_digits(n / 10);
        lemma_digit_char_value(n % 10, 10);
        let s = dec(n);
        assert(s == dec(n / 10).push(digit_char(n % 10)));
        assert(s.drop_last() =~= dec(n / 10));
        assert(s[0] == dec(n / 10)[0]);
        assert forall|i: int| 0 <= i < s.len() implies #[trigger] digit_value(s[i], 10) is Some by {
            if i < s.len() - 1 {
                assert(s[i] == dec(n / 10)[i]);
            }
        }
    }
}

/// A number written in decimal reads back as itself, wherever it fits.
pub proof fn lemma_dec_parses_back(n: nat, max: nat)
    requires
        n <= max,
    ensures
        parse_unsigned(dec(n), 10, max) == Some(n),
{
    lemma_dec_digits(n);
}

proof fn lemma_trim_start_shape(s: Seq<char>) -> (lo: int)
    ensures
        0 <= lo <= s.len(),
        trim_start(s) == s.skip(lo),
        forall|k: int| 0 <= k < lo ==> is_ws(#[trigger] s[k]),
        lo < s.len() ==> !is_ws(s[lo]),
    decreases s.len(),
{
    if s.len() > 0 && is_ws(s[0]) {
        let l = lemma_trim_start_shape(s.drop_first());
        assert(s.drop_first().skip(l) =~= s.skip(l + 1));
        assert forall|k: int| 0 <= k < l + 1 implies is_ws(#[trigger] s[k]) by {
            if k > 0 {
                assert(s[k] == s.drop_first()[k - 1]);
            }
        }
        if l + 1 < s.len() {
            assert(s[l + 1] == s.drop_first()[l]);
        }
        l + 1
    } else {
        assert(s.skip(0) =~= s);
        0
    }
}

proof fn lemma_trim_end_shape(s: Seq<char>) -> (hi: int)
    ensures
        0 <= hi <= s.len(),
        trim_end(s) == s.take(hi),
        forall|k: int| hi <= k < s.len() ==> is_ws(#[trigger] s[k]),
        hi > 0 ==> !is_ws(s[hi - 1]),
    decreases s.len(),
{
    if s.len() > 0 && is_ws(s.last()) {
        let h = lemma_trim_end_shape(s.drop_last());
        assert(s.drop_last().take(h) =~= s.take(h));
        assert forall|k: int| h <= k < s.len() implies is_ws(#[trigger] s[k]) by {
            if k < s.len() - 1 {
                assert(s[k] == s.drop_last()[k]);
            }
        }
        if h > 0 {
            assert(s[h - 1] == s.drop_last()[h - 1]);
        }
        h
    } else {
        assert(s.take(s.len() as int) =~= s);
        s.len() as int
    }
}

/// Trimming removes whitespace from both ends and nothing else: what is left
/// is a run of the text that neither starts nor ends with whitespace, and
/// everything cut off before and after it is whitespace.
pub proof fn lemma_trim_shape(s: Seq<char>)
    ensures
        exists|lo: int, hi: int| {
            &&& 0 <= lo <= hi <= s.len()
            &&& trim(s) == s.subrange(lo, hi)
            &&& forall|k: int| 0 <= k < lo ==> is_ws(#[trigger] s[k])
            &&& forall|k: int| hi <= k < s.len() ==> is_ws(#[trigger] s[k])
            &&& lo < hi ==> !is_ws(s[lo]) && !is_ws(s[hi - 1])
        },
{
    let lo = lemma_trim_start_shape(s);
    let t = s.skip(lo);
    let h = lemma_trim_end_shape(t);
    let hi = lo + h;
    assert(t.take(h) =~= s.subrange(lo, hi));
    assert forall|k: int| hi <= k < s.len() implies is_ws(#[trigger] s[k]) by {
        assert(s[k] == t[k - lo]);
    }
    if lo < hi {
        assert(s[lo] == t[0]);
        if h == t.len() {
            assert(!is_ws(s[lo]));
        } else {
            assert(!is_ws(s[lo])) by {
                assert(s[lo] == t[0]);
            }
        }
        assert(s[hi - 1] == t[h - 1]);
    }
    assert(0 <= lo <= hi <= s.len() && trim(s) == s.subrange(lo, hi));
}

/// Among ASCII characters, whitespace is the space and tab, line feed,
/// vertical tab, form feed and carriage return; letters, digits and
/// punctuation are not whitespace.
pub proof fn lemma_ascii_whitespace(c: char)
    requires
        (c as u32) < 0x80,
    ensures
        is_ws(c) <==> (c == ' ' || c == '\t' || c == '\n' || c == '\u{b}' || c == '\u{c}' || c == '\r'),
{
}

} // verus!
