//! Line-oriented text of flash files: line splitting, UTF-8 lengths and hex byte pairs.
use vstd::prelude::*;
use crate::text::{all_digits, digit_value, digits_value, parse_unsigned, parse_unsigned_chars, push_chars, push_str, str_chars, unsigned_digits};

verus! {

/// The number of bytes UTF-8 takes for `c`.
pub open spec fn utf8_len(c: char) -> nat {
    let v = c as u32;
    if v < 0x80 {
        1
    } else if v < 0x800 {
        2
    } else if v < 0x10000 {
        3
    } else {
        4
    }
}

/// The number of bytes UTF-8 takes for `s`.
pub open spec fn utf8_size(s: Seq<char>) -> nat
    decreases s.len(),
{
    if s.len() == 0 { 0 } else { utf8_size(s.drop_last()) + utf8_len(s.last()) }
}

pub fn utf8_len_of(c: char) -> (r: usize)
    ensures
        r == utf8_len(c),
{
    let v = c as u32;
    if v < 0x80 {
        1
    } else if v < 0x800 {
        2
    } else if v < 0x10000 {
        3
    } else {
        4
    }
}

/// The UTF-8 length of a run of characters.
pub fn utf8_size_of(s: &[char]) -> (r: usize)
    requires
        4 * s@.len() <= usize::MAX,
    ensures
        r == utf8_size(s@),
{
    let mut total: usize = 0;
    let mut i: usize = 0;
    while i < s.len()
        invariant
            i <= s@.len(),
            4 * s@.len() <= usize::MAX,
            total == utf8_size(s@.take(i as int)),
            total <= 4 * i,
        decreases s.len() - i,
    {
        total = total + utf8_len_of(s[i]);
        proof {
            assert(s@.take(i + 1).drop_last() =~= s@.take(i as int));
        }
        i = i + 1;
    }
    proof {
        assert(s@.take(s@.len() as int) =~= s@);
    }
    total
}

/// The pieces of `s` between newline characters, in order; there is always at least one.
pub open spec fn lines_of(s: Seq<char>) -> Seq<Seq<char>>
    decreases s.len(),
{
    if s.len() == 0 {
        seq![Seq::<char>::empty()]
    } else if s.last() == '\n' {
        lines_of(s.drop_last()).push(Seq::empty())
    } else {
        let l = lines_of(s.drop_last());
        l.update(l.len() - 1, l.last().push(s.last()))
    }
}

pub proof fn lemma_lines_nonempty(s: Seq<char>)
    ensures
        lines_of(s).len() >= 1,
    decreases s.len(),
{
    if s.len() > 0 {
        lemma_lines_nonempty(s.drop_last());
    }
}

/// The lines of text that follows a finished line (or nothing) are the
/// lines before it, then those of the text.
pub proof fn lemma_lines_concat(x: Seq<char>, y: Seq<char>)
    requires
        x.len() == 0 || x.last() == '\n',
    ensures
        lines_of(x + y) == lines_of(x).drop_last() + lines_of(y),
    decreases y.len(),
{
    lemma_lines_nonempty(x);
    if y.len() == 0 {
        assert(x + y =~= x);
        if x.len() == 0 {
            assert(lines_of(x).drop_last() + lines_of(y) =~= lines_of(x));
        } else {
            assert(lines_of(x) == lines_of(x.drop_last()).push(Seq::empty()));
            assert(lines_of(x).drop_last() + lines_of(y) =~= lines_of(x));
        }
    } else {
        lemma_lines_concat(x, y.drop_last());
        lemma_lines_nonempty(y.drop_last());
        assert((x + y).drop_last() =~= x + y.drop_last());
        assert((x + y).last() == y.last());
        let p = lines_of(x).drop_last();
        let l = lines_of(y.drop_last());
        if y.last() == '\n' {
            assert(lines_of(x + y) == (p + l).push(Seq::empty()));
            assert((p + l).push(Seq::empty()) =~= p + l.push(Seq::empty()));
        } else {
            assert(lines_of(x + y) == (p + l).update((p + l).len() - 1, (p + l).last().push(y.last())));
            assert((p + l).update((p + l).len() - 1, (p + l).last().push(y.last())) =~= p + l.update(l.len() - 1, l.last().push(y.last())));
        }
    }
}

/// Splits text at newline characters.
pub fn split_lines(content: &str) -> (r: Vec<Vec<char>>)
    ensures
        r@.len() == lines_of(content@).len(),
        forall|i: int| 0 <= i < r@.len() ==> #[trigger] r@[i]@ == lines_of(content@)[i],
{
    let cs = str_chars(content);
    let mut done: Vec<Vec<char>> = Vec::new();
    let mut cur: Vec<char> = Vec::new();
    let mut i: usize = 0;
    while i < cs.len()
        invariant
            cs@ == content@,
            i <= cs@.len(),
            lines_of(cs@.take(i as int)).len() == done@.len() + 1,
            forall|j: int| 0 <= j < done@.len() ==> #[trigger] done@[j]@ == lines_of(cs@.take(i as int))[j],
            cur@ == lines_of(cs@.take(i as int)).last(),
        decreases cs.len() - i,
    {
        let c = cs[i];
        proof {
            assert(cs@.take(i + 1).drop_last() =~= cs@.take(i as int));
            lemma_lines_nonempty(cs@.take(i as int));
        }
        if c == '\n' {
            let finished = cur;
            done.push(finished);
            cur = Vec::new();
        } else {
            cur.push(c);
        }
        i = i + 1;
    }
    done.push(cur);
    proof {
        assert(cs@.take(cs@.len() as int) =~= cs@);
        lemma_lines_nonempty(cs@);
    }
    done
}

/// The sum of bytes, as a natural number.
pub open spec fn byte_sum(s: Seq<u8>) -> nat
    decreases s.len(),
{
    if s.len() == 0 { 0 } else { byte_sum(s.drop_last()) + (s.last() as nat) }
}

/// The byte sum modulo 256, as a wrapping `u8` fold computes it.
pub fn checksum(bytes: &[u8]) -> (r: u8)
    ensures
        r == byte_sum(bytes@) % 256,
{
    let mut acc: u8 = 0;
    let mut i: usize = 0;
    while i < bytes.len()
        invariant
            i <= bytes@.len(),
            acc == byte_sum(bytes@.take(i as int)) % 256,
        decreases bytes.len() - i,
    {
        proof {
            assert(bytes@.take(i + 1).drop_last() =~= bytes@.take(i as int));
        }
        acc = acc.wrapping_add(bytes[i]);
        i = i + 1;
    }
    proof {
        assert(bytes@.take(bytes@.len() as int) =~= bytes@);
    }
    acc
}

/// An ASCII character.
pub open spec fn is_ascii(c: char) -> bool {
    (c as u32) < 0x80
}

/// The message for a byte pair that is no hex number.
pub open spec fn bad_pair_message(pair: Seq<char>) -> Seq<char> {
    "invalid hex byte '"@ + pair + "'"@
}

/// Reading consecutive two-byte slices of the UTF-8 text `cs` as hex bytes,
/// first to last. `None` where a slice would end inside a character (std
/// panics there); else the bytes, or the message for the first slice that is
/// no hex number.
pub open spec fn hex_pairs(cs: Seq<char>) -> Option<Result<Seq<u8>, Seq<char>>>
    decreases cs.len(),
{
    if cs.len() == 0 {
        Some(Ok(Seq::empty()))
    } else if is_ascii(cs[0]) {
        if cs.len() >= 2 && is_ascii(cs[1]) {
            match parse_unsigned(cs.take(2), 16, 255) {
                Some(v) => match hex_pairs(cs.skip(2)) {
                    Some(Ok(rest)) => Some(Ok(seq![v as u8] + rest)),
                    other => other,
                },
                None => Some(Err(bad_pair_message(cs.take(2)))),
            }
        } else {
            None
        }
    } else if utf8_len(cs[0]) == 2 {
        Some(Err(bad_pair_message(cs.take(1))))
    } else {
        None
    }
}

/// `hex_pairs`, after the check that the text has an even byte length.
pub open spec fn hex_decode(cs: Seq<char>) -> Option<Result<Seq<u8>, Seq<char>>> {
    if utf8_size(cs) % 2 != 0 {
        Some(Err("hex payload must contain an even number of digits"@))
    } else {
        hex_pairs(cs)
    }
}

/// `out` followed by what `rest` gives.
pub open spec fn prepend_bytes(out: Seq<u8>, rest: Option<Result<Seq<u8>, Seq<char>>>) -> Option<Result<Seq<u8>, Seq<char>>> {
    match rest {
        Some(Ok(r)) => Some(Ok(out + r)),
        other => other,
    }
}

proof fn lemma_utf8_size_ascii_prefix(cs: Seq<char>)
    requires
        cs.len() >= 1,
    ensures
        utf8_size(cs) == utf8_len(cs[0]) + utf8_size(cs.drop_first()),
    decreases cs.len(),
{
    if cs.len() > 1 {
        lemma_utf8_size_ascii_prefix(cs.drop_last());
        assert(cs.drop_last().drop_first() =~= cs.drop_first().drop_last());
    } else {
        assert(cs.drop_first() =~= Seq::<char>::empty());
        assert(cs.drop_last() =~= Seq::<char>::empty());
    }
}

/// `utf8_len` is the length of the UTF-8 encoding of a character, and
/// `utf8_size` that of a text: the byte lengths std slices by. (Every `char`
/// is a Unicode scalar value; the requirement states that validity.)
pub proof fn lemma_utf8_size_is_encoding_length(cs: Seq<char>)
    requires
        forall|i: int| 0 <= i < cs.len() ==> vstd::utf8::is_scalar(#[trigger] cs[i] as u32),
    ensures
        utf8_size(cs) == vstd::utf8::encode_utf8(cs).len(),
    decreases cs.len(),
{
    if cs.len() > 0 {
        lemma_utf8_size_ascii_prefix(cs);
        assert forall|i: int| 0 <= i < cs.drop_first().len() implies vstd::utf8::is_scalar(#[trigger] cs.drop_first()[i] as u32) by {
            assert(cs.drop_first()[i] == cs[i + 1]);
        }
        lemma_utf8_size_is_encoding_length(cs.drop_first());
        assert(vstd::utf8::is_scalar(cs[0] as u32));
        assert(vstd::utf8::encode_scalar(cs[0] as u32).len() == utf8_len(cs[0]));
    }
}

/// Decodes the hex text of a record into bytes; `None` where a two-byte
/// slice would end inside a character, where std panics.
pub fn decode_hex_bytes(raw: &[char]) -> (r: Option<Result<Vec<u8>, String>>)
    requires
        4 * raw@.len() <= usize::MAX,
    ensures
        match hex_decode(raw@) {
            None => r is None,
            Some(Ok(bytes)) => r matches Some(Ok(v)) && v@ == bytes,
            Some(Err(m)) => r matches Some(Err(e)) && e@ == m,
        },
{
    let size = utf8_size_of(raw);
    if size % 2 != 0 {
        let mut m = String::new();
        push_str(&mut m, "hex payload must contain an even number of digits");
        assert(m@ =~= "hex payload must contain an even number of digits"@);
        return Some(Err(m));
    }
    let mut out: Vec<u8> = Vec::new();
    let mut i: usize = 0;
    proof {
        assert(raw@.skip(0) =~= raw@);
        if let Some(Ok(r)) = hex_pairs(raw@) {
            assert(Seq::<u8>::empty() + r =~= r);
        }
    }
    while i < raw.len()
        invariant
            i <= raw@.len(),
            hex_pairs(raw@) == prepend_bytes(out@, hex_pairs(raw@.skip(i as int))),
            hex_decode(raw@) == hex_pairs(raw@),
        decreases raw.len() - i,
    {
        let ghost rest = raw@.skip(i as int);
        let c0 = raw[i];
        proof {
            assert(rest[0] == c0);
        }
        if (c0 as u32) < 0x80 {
            if i + 1 >= raw.len() || (raw[i + 1] as u32) >= 0x80 {
                proof {
                    assert(hex_pairs(rest) is None);
                }
                return None;
            }
            let pair: [char; 2] = [c0, raw[i + 1]];
            proof {
                assert(rest.len() >= 2 && rest[1] == raw@[i + 1]);
                assert(pair@ =~= rest.take(2));
            }
            match parse_unsigned_chars(pair.as_slice(), 16, 255) {
                Some(v) => {
                    proof {
                        assert(rest.skip(2) =~= raw@.skip(i + 2));
                        assert(out@.push(v as u8) =~= out@ + seq![v as u8]);
                        if let Some(Ok(r)) = hex_pairs(raw@.skip(i + 2)) {
                            assert(out@ + (seq![v as u8] + r) =~= out@.push(v as u8) + r);
                        }
                    }
                    out.push(v as u8);
                    i = i + 2;
                },
                None => {
                    let mut m = String::new();
                    push_str(&mut m, "invalid hex byte '");
                    push_chars(&mut m, pair.as_slice());
                    push_str(&mut m, "'");
                    proof {
                        assert(hex_pairs(rest) == Some(Err::<Seq<u8>, Seq<char>>(bad_pair_message(rest.take(2)))));
                        assert(m@ =~= bad_pair_message(rest.take(2)));
                    }
                    return Some(Err(m));
                },
            }
        } else if utf8_len_of(c0) == 2 {
            let one: [char; 1] = [c0];
            proof {
                assert(one@ =~= rest.take(1));
            }
            let mut m = String::new();
            push_str(&mut m, "invalid hex byte '");
            push_chars(&mut m, one.as_slice());
            push_str(&mut m, "'");
            proof {
                assert(hex_pairs(rest) == Some(Err::<Seq<u8>, Seq<char>>(bad_pair_message(rest.take(1)))));
                assert(m@ =~= bad_pair_message(rest.take(1)));
            }
            return Some(Err(m));
        } else {
            proof {
                assert(hex_pairs(rest) is None);
            }
            return None;
        }
    }
    proof {
        assert(raw@.skip(raw@.len() as int) =~= Seq::<char>::empty());
        assert(out@ + Seq::<u8>::empty() =~= out@);
    }
    Some(Ok(out))
}

/// Two hex digits, the first no '+', read as one byte.
pub proof fn lemma_hex_pair_value(a: char, b: char, v: nat)
    requires
        digit_value(a, 16) is Some,
        digit_value(b, 16) is Some,
        v == digit_value(a, 16).unwrap() * 16 + digit_value(b, 16).unwrap(),
        v <= 255,
        a != '+',
    ensures
        parse_unsigned(seq![a, b], 16, 255) == Some(v),
{
    let ds = seq![a, b];
    assert(unsigned_digits(ds) == ds);
    assert(ds.drop_last() =~= seq![a]);
    assert(seq![a].drop_last() =~= Seq::<char>::empty());
    assert(digits_value(Seq::<char>::empty(), 16) == 0);
    assert(seq![a].last() == a);
    assert(ds.last() == b);
    assert(digits_value(seq![a], 16) == digit_value(a, 16).unwrap());
    assert(digits_value(ds, 16) == v);
    assert(all_digits(ds, 16)) by {
        assert forall|i: int| 0 <= i < ds.len() implies #[trigger] digit_value(ds[i], 16) is Some by {
            if i == 0 { assert(ds[0] == a); } else { assert(ds[1] == b); }
        }
    }
}

/// The value of a hex digit.
pub open spec fn hex_digit(c: char) -> nat {
    digit_value(c, 16).unwrap()
}

/// Hex text of an even number of hex digits decodes to one byte per pair
/// of digits, the first digit of the pair the high nibble, in order.
pub proof fn lemma_hex_decode_digits(cs: Seq<char>)
    requires
        cs.len() % 2 == 0,
        forall|i: int| 0 <= i < cs.len() ==> #[trigger] digit_value(cs[i], 16) is Some,
    ensures
        hex_decode(cs) matches Some(Ok(b)) && b.len() * 2 == cs.len()
            && forall|i: int| 0 <= i < b.len() ==> #[trigger] b[i] == hex_digit(cs[2 * i]) * 16 + hex_digit(cs[2 * i + 1]),
    decreases cs.len(),
{
    assert(all_ascii(cs)) by {
        assert forall|i: int| 0 <= i < cs.len() implies is_ascii(#[trigger] cs[i]) by {
            assert(digit_value(cs[i], 16) is Some);
        }
    }
    lemma_utf8_size_ascii(cs);
    lemma_hex_pairs_digits(cs);
}

proof fn lemma_hex_pairs_digits(cs: Seq<char>)
    requires
        cs.len() % 2 == 0,
        forall|i: int| 0 <= i < cs.len() ==> #[trigger] digit_value(cs[i], 16) is Some,
    ensures
        hex_pairs(cs) matches Some(Ok(b)) && b.len() * 2 == cs.len()
            && forall|i: int| 0 <= i < b.len() ==> #[trigger] b[i] == hex_digit(cs[2 * i]) * 16 + hex_digit(cs[2 * i + 1]),
    decreases cs.len(),
{
    if cs.len() > 0 {
        let rest = cs.skip(2);
        assert forall|i: int| 0 <= i < rest.len() implies #[trigger] digit_value(rest[i], 16) is Some by {
            assert(rest[i] == cs[i + 2]);
        }
        lemma_hex_pairs_digits(rest);
        assert(digit_value(cs[0], 16) is Some && digit_value(cs[1], 16) is Some);
        let v = hex_digit(cs[0]) * 16 + hex_digit(cs[1]);
        assert(v <= 255);
        assert(cs.take(2) =~= seq![cs[0], cs[1]]);
        lemma_hex_pair_value(cs[0], cs[1], v);
        let rb = hex_pairs(rest).unwrap()->Ok_0;
        let b = seq![v as u8] + rb;
        assert(hex_pairs(cs) == Some(Ok::<Seq<u8>, Seq<char>>(b)));
        assert forall|i: int| 0 <= i < b.len() implies #[trigger] b[i] == hex_digit(cs[2 * i]) * 16 + hex_digit(cs[2 * i + 1]) by {
            if i > 0 {
                assert(b[i] == rb[i - 1]);
                assert(rest[2 * (i - 1)] == cs[2 * i]);
                assert(rest[2 * (i - 1) + 1] == cs[2 * i + 1]);
            }
        }
    }
}

/// Every character is ASCII.
pub open spec fn all_ascii(s: Seq<char>) -> bool {
    forall|i: int| 0 <= i < s.len() ==> #[trigger] is_ascii(s[i])
}

/// Whether every character of a text is ASCII.
pub fn is_ascii_text(s: &str) -> (r: bool)
    ensures
        r == all_ascii(s@),
{
    let cs = crate::text::str_chars(s);
    let mut i: usize = 0;
    while i < cs.len()
        invariant
            cs@ == s@,
            i <= cs@.len(),
            forall|j: int| 0 <= j < i ==> #[trigger] is_ascii(cs@[j]),
        decreases cs.len() - i,
    {
        if (cs[i] as u32) >= 0x80 {
            assert(!is_ascii(s@[i as int]));
            return false;
        }
        i = i + 1;
    }
    true
}

/// An ASCII text has one byte per character.
pub proof fn lemma_utf8_size_ascii(s: Seq<char>)
    requires
        all_ascii(s),
    ensures
        utf8_size(s) == s.len(),
    decreases s.len(),
{
    if s.len() > 0 {
        assert(is_ascii(s[s.len() - 1]));
        lemma_utf8_size_ascii(s.drop_last());
    }
}

/// The lines of an ASCII text are ASCII.
pub proof fn lemma_lines_ascii(s: Seq<char>)
    requires
        all_ascii(s),
    ensures
        forall|j: int| 0 <= j < lines_of(s).len() ==> all_ascii(#[trigger] lines_of(s)[j]),
    decreases s.len(),
{
    if s.len() > 0 {
        let t = s.drop_last();
        lemma_lines_ascii(t);
        lemma_lines_nonempty(t);
        let l = lines_of(t);
        assert(is_ascii(s[s.len() - 1]));
        if s.last() != '\n' {
            let last = l.last().push(s.last());
            assert(all_ascii(l[l.len() - 1]));
            assert(all_ascii(last)) by {
                assert forall|i: int| 0 <= i < last.len() implies #[trigger] is_ascii(last[i]) by {
                    if i < last.len() - 1 {
                        assert(last[i] == l[l.len() - 1][i]);
                    }
                }
            }
            assert forall|j: int| 0 <= j < lines_of(s).len() implies all_ascii(#[trigger] lines_of(s)[j]) by {
                if j < l.len() - 1 {
                    assert(lines_of(s)[j] == l[j]);
                }
            }
        } else {
            assert forall|j: int| 0 <= j < lines_of(s).len() implies all_ascii(#[trigger] lines_of(s)[j]) by {
                if j < l.len() {
                    assert(lines_of(s)[j] == l[j]);
                } else {
                    assert(lines_of(s)[j] =~= Seq::<char>::empty());
                }
            }
        }
    }
}

/// Trimming an ASCII text leaves ASCII.
pub proof fn lemma_trim_ascii(s: Seq<char>)
    requires
        all_ascii(s),
    ensures
        all_ascii(crate::text::trim(s)),
{
    lemma_trim_start_ascii(s);
    lemma_trim_end_ascii(crate::text::trim_start(s));
}

proof fn lemma_trim_start_ascii(s: Seq<char>)
    requires
        all_ascii(s),
    ensures
        all_ascii(crate::text::trim_start(s)),
    decreases s.len(),
{
    if s.len() > 0 && crate::text::is_ws(s[0]) {
        assert(all_ascii(s.drop_first())) by {
            assert forall|i: int| 0 <= i < s.drop_first().len() implies #[trigger] is_ascii(s.drop_first()[i]) by {
                assert(s.drop_first()[i] == s[i + 1]);
            }
        }
        lemma_trim_start_ascii(s.drop_first());
    }
}

proof fn lemma_trim_end_ascii(s: Seq<char>)
    requires
        all_ascii(s),
    ensures
        all_ascii(crate::text::trim_end(s)),
    decreases s.len(),
{
    if s.len() > 0 && crate::text::is_ws(s.last()) {
        assert(all_ascii(s.drop_last())) by {
            assert forall|i: int| 0 <= i < s.drop_last().len() implies #[trigger] is_ascii(s.drop_last()[i]) by {
                assert(s.drop_last()[i] == s[i]);
            }
        }
        lemma_trim_end_ascii(s.drop_last());
    }
}

/// The characters of an ASCII text from `k` on are ASCII.
pub proof fn lemma_skip_ascii(s: Seq<char>, k: int)
    requires
        all_ascii(s),
        0 <= k <= s.len(),
    ensures
        all_ascii(s.skip(k)),
{
    assert forall|i: int| 0 <= i < s.skip(k).len() implies #[trigger] is_ascii(s.skip(k)[i]) by {
        assert(s.skip(k)[i] == s[i + k]);
    }
}

/// An ASCII hex text never makes the decoder slice inside a character.
pub proof fn lemma_hex_decode_ascii(cs: Seq<char>)
    requires
        all_ascii(cs),
    ensures
        hex_decode(cs) is Some,
{
    lemma_utf8_size_ascii(cs);
    if cs.len() % 2 == 0 {
        lemma_hex_pairs_ascii(cs);
    }
}

proof fn lemma_hex_pairs_ascii(cs: Seq<char>)
    requires
        all_ascii(cs),
        cs.len() % 2 == 0,
    ensures
        hex_pairs(cs) is Some,
    decreases cs.len(),
{
    if cs.len() > 0 {
        assert(is_ascii(cs[0]) && is_ascii(cs[1]));
        lemma_skip_ascii(cs, 2);
        lemma_hex_pairs_ascii(cs.skip(2));
    }
}

} // verus!
