//! Names of local IPC endpoints.
use vstd::prelude::*;
use crate::paths::{documented_stem, file_segment, plain_path};
use vstd::utf8::{encode_utf8, is_ascii_chars};
use crate::text::{push_str, string_push};

verus! {

/// The 64-bit FNV-1a hash of a byte sequence.
pub open spec fn fnv1a(bytes: Seq<u8>) -> u64
    decreases bytes.len(),
{
    if bytes.len() == 0 {
        0xcbf2_9ce4_8422_2325u64
    } else {
        (fnv1a(bytes.drop_last()) ^ (bytes.last() as u64)).wrapping_mul(0x100_0000_01b3u64)
    }
}

/// The FNV-1a hash of the UTF-8 bytes of a text; stable across builds.
pub fn stable_hash64(raw: &str) -> (r: u64)
    ensures
        r == fnv1a(encode_utf8(raw@)),
{
    let bytes = raw.as_bytes();
    let mut hash: u64 = 0xcbf2_9ce4_8422_2325u64;
    let mut i: usize = 0;
    while i < bytes.len()
        invariant
            i <= bytes@.len(),
            hash == fnv1a(bytes@.take(i as int)),
        decreases bytes.len() - i,
    {
        proof {
            assert(bytes@.take(i + 1).drop_last() =~= bytes@.take(i as int));
        }
        hash = hash ^ (bytes[i] as u64);
        hash = hash.wrapping_mul(0x100_0000_01b3u64);
        i = i + 1;
    }
    proof {
        assert(bytes@.take(bytes@.len() as int) =~= bytes@);
    }
    hash
}

/// Longest Windows pipe name, in bytes.
pub const WINDOWS_PIPE_NAME_MAX_LEN: usize = 256;

/// Length of the '-' and 16 hex digits that end a pipe name.
pub const WINDOWS_PIPE_HASH_SUFFIX_LEN: usize = 17;

/// Longest stem kept in a pipe name: what the prefix and hash suffix leave.
pub const WINDOWS_PIPE_STEM_MAX_LEN: usize = 256 - 19 - 17;

/// The text every pipe name starts with.
pub open spec fn pipe_prefix() -> Seq<char> {
    seq!['\\', '\\', '.', '\\', 'p', 'i', 'p', 'e', '\\', 'a', 'g', 'e', 'n', 't', '-', 's', 'i', 'm', '-']
}

/// A character kept in a pipe name: ASCII letters and digits, '-' and '_';
/// any other becomes '_'.
pub open spec fn pipe_char(c: char) -> char {
    if ('0' <= c && c <= '9') || ('a' <= c && c <= 'z') || ('A' <= c && c <= 'Z') || c == '-' || c == '_' {
        c
    } else {
        '_'
    }
}

/// The stem as it stands in a pipe name: each character made safe, at most
/// `WINDOWS_PIPE_STEM_MAX_LEN` of them.
pub open spec fn pipe_stem(stem: Seq<char>) -> Seq<char> {
    let n: int = if stem.len() < 220 { stem.len() as int } else { 220 };
    Seq::new(n as nat, |i: int| pipe_char(stem[i]))
}

/// A lower-case hex digit.
pub open spec fn hex_lower_char(d: nat) -> char {
    if d < 10 { ((d + 48) as u8) as char } else if d < 16 { ((d - 10 + 97) as u8) as char } else { '?' }
}

/// The last `k` lower-case hex digits of `n`, most significant first.
pub open spec fn hex_lower_fixed(n: nat, k: nat) -> Seq<char>
    decreases k,
{
    if k == 0 {
        Seq::empty()
    } else {
        hex_lower_fixed(n / 16, (k - 1) as nat).push(hex_lower_char(n % 16))
    }
}

/// The pipe name of an endpoint whose path reads `raw` and whose file stem
/// is `stem` ("endpoint" when it has none): prefix, safe stem, '-', and the
/// hash of the path in 16 lower-case hex digits.
pub open spec fn pipe_name_text(raw: Seq<char>, stem: Option<Seq<char>>) -> Seq<char> {
    let st = match stem {
        Some(t) => t,
        None => "endpoint"@,
    };
    pipe_prefix() + pipe_stem(st) + seq!['-'] + hex_lower_fixed(fnv1a(encode_utf8(raw)) as nat, 16)
}

fn hex_lower_of(d: u64) -> (c: char)
    requires
        d < 16,
    ensures
        c == hex_lower_char(d as nat),
        is_ascii_chars(seq![c]),
{
    let b: u8 = if d < 10 { (d as u8) + 48 } else { (d as u8) - 10 + 97 };
    b as char
}

proof fn lemma_hex_lower_fixed(n: nat, k: nat)
    ensures
        hex_lower_fixed(n, k).len() == k,
        is_ascii_chars(hex_lower_fixed(n, k)),
    decreases k,
{
    if k > 0 {
        lemma_hex_lower_fixed(n / 16, (k - 1) as nat);
        let s = hex_lower_fixed(n, k);
        let d = n % 16;
        assert forall|i: int| 0 <= i < s.len() implies (s[i] as u32) < 0x80 by {
            if i == s.len() - 1 {
                assert(s[i] == hex_lower_char(d));
                if d < 10 {
                    assert(((d + 48) as u8) < 0x80);
                } else {
                    assert(((d - 10 + 97) as u8) < 0x80);
                }
            } else {
                assert(s[i] == hex_lower_fixed(n / 16, (k - 1) as nat)[i]);
            }
        }
    }
}

fn push_hex_lower_fixed(s: &mut String, n: u64, k: u32)
    ensures
        final(s)@ == old(s)@ + hex_lower_fixed(n as nat, k as nat),
    decreases k,
{
    if k > 0 {
        push_hex_lower_fixed(s, n / 16, k - 1);
        let c = hex_lower_of(n % 16);
        let ghost mid = s@;
        string_push(s, c);
        assert(s@ =~= old(s)@ + hex_lower_fixed(n as nat, k as nat));
    }
}

fn pipe_char_of(c: char) -> (r: char)
    ensures
        r == pipe_char(c),
{
    if ('0' <= c && c <= '9') || ('a' <= c && c <= 'z') || ('A' <= c && c <= 'Z') || c == '-' || c == '_' {
        c
    } else {
        '_'
    }
}

/// The Windows pipe name of an endpoint whose path reads `raw` and whose
/// file stem is `stem`; it is ASCII and at most `WINDOWS_PIPE_NAME_MAX_LEN`
/// long.
pub fn pipe_name_for(raw: &str, stem: Option<&str>) -> (r: String)
    ensures
        r@ == pipe_name_text(raw@, match stem { Some(t) => Some(t@), None => None }),
        is_ascii_chars(r@),
        r@.len() <= WINDOWS_PIPE_NAME_MAX_LEN,
{
    let mut name = String::new();
    push_str(&mut name, "\\\\.\\pipe\\agent-sim-");
    proof {
        reveal_strlit("\\\\.\\pipe\\agent-sim-");
    }
    assert(name@ =~= pipe_prefix());
    let st: &str = match stem {
        Some(t) => t,
        None => "endpoint",
    };
    let ghost st_view = match stem { Some(t) => t@, None => "endpoint"@ };
    assert(st@ == st_view);
    let cs = crate::text::str_chars(st);
    let mut i: usize = 0;
    while i < cs.len() && i < WINDOWS_PIPE_STEM_MAX_LEN
        invariant
            i <= cs@.len(),
            i <= 220,
            cs@ == st_view,
            name@ == pipe_prefix() + Seq::new(i as nat, |j: int| pipe_char(cs@[j])),
        decreases cs@.len() - i,
    {
        let c = pipe_char_of(cs[i]);
        string_push(&mut name, c);
        assert(name@ =~= pipe_prefix() + Seq::new((i + 1) as nat, |j: int| pipe_char(cs@[j])));
        i = i + 1;
    }
    assert(Seq::new(i as nat, |j: int| pipe_char(cs@[j])) =~= pipe_stem(st_view));
    string_push(&mut name, '-');
    let h = stable_hash64(raw);
    push_hex_lower_fixed(&mut name, h, 16);
    proof {
        lemma_hex_lower_fixed(h as nat, 16);
        let ps = pipe_stem(st_view);
        assert(name@ =~= pipe_prefix() + ps + seq!['-'] + hex_lower_fixed(h as nat, 16));
        assert forall|j: int| 0 <= j < name@.len() implies (name@[j] as u32) < 0x80 by {
            let a = pipe_prefix().len() as int;
            let b = a + ps.len();
            if j < a {
                assert(name@[j] == pipe_prefix()[j]);
            } else if j < b {
                assert(name@[j] == ps[j - a]);
                assert(ps[j - a] == pipe_char(st_view[j - a]));
            } else if j == b {
            } else {
                assert(name@[j] == hex_lower_fixed(h as nat, 16)[j - b - 1]);
            }
        }
    }
    name
}

/// The file stem of a path, from `std::path::Path::file_stem`, when it is
/// valid UTF-8. Which characters separate path components depends on the
/// platform; on a plain path, read alike on Unix and Windows, the stem is
/// the one std documents for its last segment. Of other paths nothing is
/// claimed.
#[verifier::external_body]
fn path_file_stem(path: &str) -> (r: Option<String>)
    ensures
        plain_path(path@) ==> r is Some && r.unwrap()@ == documented_stem(file_segment(path@)),
{
    std::path::Path::new(path).file_stem().and_then(|stem| stem.to_str()).map(|stem| stem.to_string())
}

/// The Windows pipe name of an endpoint path: its stem, as the platform
/// reads it, made safe and bounded, then the path's hash.
pub fn pipe_name(endpoint: &str) -> (r: String)
    ensures
        exists|stem: Option<Seq<char>>| r@ == #[trigger] pipe_name_text(endpoint@, stem),
        plain_path(endpoint@) ==> r@ == pipe_name_text(endpoint@, Some(documented_stem(file_segment(endpoint@)))),
        is_ascii_chars(r@),
        r@.len() <= WINDOWS_PIPE_NAME_MAX_LEN,
{
    let stem = path_file_stem(endpoint);
    match stem {
        Some(t) => pipe_name_for(endpoint, Some(t.as_str())),
        None => pipe_name_for(endpoint, None),
    }
}

} // verus!
