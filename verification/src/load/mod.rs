//! Flash images: the byte map a project is flashed with, the file formats it
//! is read from, and the regions handed to the project.
use vstd::prelude::*;
use crate::paths::{documented_extension, file_segment, plain_path};
use crate::load::memory::{FlashMemory, ResolvedFlashRegion, regions_describe, span_map};
use crate::text::{
    dec, has_prefix, hex_upper, parse_unsigned, parse_unsigned_chars, push_dec, push_hex_upper, push_str,
    starts_with, str_chars, string_from_chars, trim, trim_chars,
};

pub mod memory;
pub mod records;
pub mod ihex;
pub mod srec;
pub mod resolve;

verus! {

/// Why a flash input could not be turned into regions.
#[derive(Clone, Debug, PartialEq, Eq)]
pub enum FlashParseError {
    UnsupportedFormat(String),
    InvalidAddress(String),
    MissingBinaryBase,
    AddressOverflow { base_addr: u32, len: usize },
    InvalidIntelHex { line: usize, message: String },
    InvalidSrec { line: usize, message: String },
    FileRead { path: String, message: String },
    LoadSpec { path: String, message: String },
}

/// `len` bytes starting at `base_addr` stay inside the 32-bit address space.
pub open spec fn fits_address_space(base_addr: u32, len: int) -> bool {
    len == 0 || base_addr + len - 1 <= u32::MAX
}

pub fn ensure_address_range(base_addr: u32, len: usize) -> (r: Result<(), FlashParseError>)
    ensures
        r is Ok <==> fits_address_space(base_addr, len as int),
        r is Err ==> r == Err::<(), FlashParseError>(FlashParseError::AddressOverflow { base_addr, len }),
{
    if len == 0 {
        return Ok(());
    }
    let last_addr: u128 = base_addr as u128 + len as u128 - 1;
    if last_addr > u32::MAX as u128 {
        return Err(FlashParseError::AddressOverflow { base_addr, len });
    }
    Ok(())
}

/// A loadable project: its shared library, its env tag and its flash image.
#[derive(Clone, Debug, PartialEq, Eq)]
pub struct LoadSpec {
    pub libpath: String,
    pub env_tag: Option<String>,
    pub flash: Vec<ResolvedFlashRegion>,
}

/// The flash file formats.
#[derive(Clone, Copy, Debug, PartialEq, Eq)]
pub enum FlashFormat {
    IntelHex,
    Srec,
    Binary,
}

/// ASCII letters in lower case, other characters unchanged.
pub open spec fn ascii_lower(s: Seq<char>) -> Seq<char> {
    s.map_values(|c: char| if 'A' <= c <= 'Z' { ((c as u32) + 32) as char } else { c })
}

/// The format a (trimmed, lower-cased) format name stands for.
pub open spec fn format_named(name: Seq<char>) -> Option<FlashFormat> {
    if name == "hex"@ || name == "ihex"@ || name == "intel-hex"@ || name == "intel_hex"@ {
        Some(FlashFormat::IntelHex)
    } else if name == "srec"@ || name == "s-record"@ || name == "s_record"@ || name == "s19"@ || name == "s28"@
        || name == "s37"@ || name == "mot"@ {
        Some(FlashFormat::Srec)
    } else if name == "bin"@ || name == "binary"@ {
        Some(FlashFormat::Binary)
    } else {
        None
    }
}

fn ascii_lower_chars(s: &[char]) -> (r: Vec<char>)
    ensures
        r@ == ascii_lower(s@),
{
    let mut r: Vec<char> = Vec::new();
    let mut i: usize = 0;
    while i < s.len()
        invariant
            i <= s.len(),
            r@ == ascii_lower(s@.take(i as int)),
        decreases s.len() - i,
    {
        let c = s[i];
        let lc = if 'A' <= c && c <= 'Z' {
            let b: u8 = ((c as u32) + 32) as u8;
            b as char
        } else {
            c
        };
        r.push(lc);
        proof {
            assert(ascii_lower(s@.take(i + 1)) =~= ascii_lower(s@.take(i as int)).push(lc));
        }
        i = i + 1;
    }
    proof {
        assert(s@.take(s@.len() as int) =~= s@);
    }
    r
}

fn chars_eq(a: &[char], b: &str) -> (r: bool)
    ensures
        r == (a@ == b@),
{
    let bc = str_chars(b);
    if a.len() != bc.len() {
        return false;
    }
    let mut i: usize = 0;
    while i < a.len()
        invariant
            bc@ == b@,
            a.len() == bc.len(),
            i <= a.len(),
            forall|j: int| 0 <= j < i ==> a@[j] == bc@[j],
        decreases a.len() - i,
    {
        if a[i] != bc[i] {
            return false;
        }
        i = i + 1;
    }
    assert(a@ =~= bc@);
    true
}

impl FlashFormat {
    /// Reads a format name: surrounding whitespace and letter case do not matter.
    pub fn parse(raw: &str) -> (r: Result<FlashFormat, FlashParseError>)
        ensures
            match format_named(ascii_lower(trim(raw@))) {
                Some(f) => r == Ok::<FlashFormat, FlashParseError>(f),
                None => r matches Err(FlashParseError::UnsupportedFormat(name)) && name@ == ascii_lower(trim(raw@)),
            },
    {
        let cs = str_chars(raw);
        let t = trim_chars(cs.as_slice());
        let name = ascii_lower_chars(t.as_slice());
        let n = name.as_slice();
        if chars_eq(n, "hex") || chars_eq(n, "ihex") || chars_eq(n, "intel-hex") || chars_eq(n, "intel_hex") {
            Ok(FlashFormat::IntelHex)
        } else if chars_eq(n, "srec") || chars_eq(n, "s-record") || chars_eq(n, "s_record") || chars_eq(n, "s19")
            || chars_eq(n, "s28") || chars_eq(n, "s37") || chars_eq(n, "mot") {
            Ok(FlashFormat::Srec)
        } else if chars_eq(n, "bin") || chars_eq(n, "binary") {
            Ok(FlashFormat::Binary)
        } else {
            Err(FlashParseError::UnsupportedFormat(string_from_chars(n)))
        }
    }
}

/// The value of an address literal: `0x` or `0X` then hex digits, or decimal digits.
pub open spec fn address_value(raw: Seq<char>) -> Option<nat> {
    let t = trim(raw);
    if has_prefix(t, "0x"@) || has_prefix(t, "0X"@) {
        parse_unsigned(t.drop_first().drop_first(), 16, u32::MAX as nat)
    } else {
        parse_unsigned(t, 10, u32::MAX as nat)
    }
}

/// An address reads as the number it writes, in decimal or in upper-case
/// hex after `0x`, for every 32-bit address.
pub proof fn lemma_address_forms(n: u32)
    ensures
        address_value(dec(n as nat)) == Some(n as nat),
        address_value("0x"@ + crate::can::hex_digits(n as nat)) == Some(n as nat),
{
    reveal_strlit("0x");
    reveal_strlit("0X");
    let d = dec(n as nat);
    crate::text::lemma_dec_digits(n as nat);
    crate::text::lemma_dec_parses_back(n as nat, u32::MAX as nat);
    assert(crate::text::digit_value(d[0], 10) is Some);
    assert(crate::text::digit_value(d[d.len() - 1], 10) is Some);
    assert(d.last() == d[d.len() - 1]);
    assert(crate::text::trim_start(d) == d);
    assert(trim(d) == d);
    if d.len() >= 2 {
        assert(crate::text::digit_value(d[1], 10) is Some);
        assert(d.subrange(0, 2) != "0x"@) by {
            assert(d.subrange(0, 2)[1] == d[1]);
        }
        assert(d.subrange(0, 2) != "0X"@) by {
            assert(d.subrange(0, 2)[1] == d[1]);
        }
    }
    let h = crate::can::hex_digits(n as nat);
    crate::can::lemma_hex_digits_value(n as nat);
    crate::can::lemma_hex_digits_parse_back(n as nat, u32::MAX as nat);
    let t = "0x"@ + h;
    assert(t[0] == '0');
    assert(crate::text::digit_value(h[h.len() - 1], 16) is Some);
    assert(t.last() == h[h.len() - 1]);
    assert(crate::text::trim_start(t) == t);
    assert(trim(t) == t);
    assert(t.subrange(0, 2) =~= "0x"@);
    assert(t.drop_first().drop_first() =~= h);
}

/// Reads a flash address, hexadecimal with a `0x` prefix or decimal.
pub fn parse_address(raw: &str) -> (r: Result<u32, FlashParseError>)
    ensures
        match address_value(raw@) {
            Some(v) => r == Ok::<u32, FlashParseError>(v as u32),
            None => r matches Err(FlashParseError::InvalidAddress(s)) && s@ == raw@,
        },
{
    let cs = str_chars(raw);
    let t = trim_chars(cs.as_slice());
    proof {
        reveal_strlit("0x");
        reveal_strlit("0X");
    }
    let parsed = if starts_with(t.as_slice(), "0x") || starts_with(t.as_slice(), "0X") {
        let mut rest: Vec<char> = Vec::new();
        let mut i: usize = 2;
        while i < t.len()
            invariant
                2 <= i <= t.len(),
                rest@ == t@.subrange(2, i as int),
            decreases t.len() - i,
        {
            rest.push(t[i]);
            assert(t@.subrange(2, i + 1) =~= t@.subrange(2, i as int).push(t@[i as int]));
            i = i + 1;
        }
        assert(rest@ =~= t@.drop_first().drop_first());
        parse_unsigned_chars(rest.as_slice(), 16, u32::MAX as u64)
    } else {
        parse_unsigned_chars(t.as_slice(), 10, u32::MAX as u64)
    };
    match parsed {
        Some(v) => Ok(v as u32),
        None => {
            let mut s = String::new();
            push_str(&mut s, raw);
            assert(s@ =~= raw@);
            Err(FlashParseError::InvalidAddress(s))
        },
    }
}

/// A raw binary image placed at `base_addr`.
pub fn parse_raw_binary(bytes: &[u8], base_addr: u32) -> (r: Result<ResolvedFlashRegion, FlashParseError>)
    ensures
        r is Ok <==> fits_address_space(base_addr, bytes@.len() as int),
        r matches Ok(region) ==> region.base_addr == base_addr && region.data@ == bytes@,
        r is Err ==> r == Err::<ResolvedFlashRegion, FlashParseError>(
            FlashParseError::AddressOverflow { base_addr, len: bytes@.len() as usize },
        ),
{
    match ensure_address_range(base_addr, bytes.len()) {
        Err(e) => Err(e),
        Ok(()) => {
            let mut data: Vec<u8> = Vec::new();
            let mut i: usize = 0;
            while i < bytes.len()
                invariant
                    i <= bytes.len(),
                    data@ == bytes@.take(i as int),
                decreases bytes.len() - i,
            {
                data.push(bytes[i]);
                assert(bytes@.take(i + 1) =~= bytes@.take(i as int).push(bytes@[i as int]));
                i = i + 1;
            }
            assert(bytes@.take(bytes@.len() as int) =~= bytes@);
            Ok(ResolvedFlashRegion { base_addr, data })
        },
    }
}

/// A region as a base address and its bytes.
pub open spec fn spans_of(regions: Seq<ResolvedFlashRegion>) -> Seq<(u32, Seq<u8>)> {
    regions.map_values(|r: ResolvedFlashRegion| (r.base_addr, r.data@))
}

/// The byte image of spans written in order: later spans overwrite earlier ones.
pub open spec fn spans_image(spans: Seq<(u32, Seq<u8>)>) -> Map<u32, u8>
    decreases spans.len(),
{
    if spans.len() == 0 {
        Map::empty()
    } else {
        spans_image(spans.drop_last()).union_prefer_right(span_map(spans.last().0, spans.last().1))
    }
}

/// Span `sp` covers address `a`.
pub open spec fn covers(sp: (u32, Seq<u8>), a: u32) -> bool {
    sp.0 <= a < sp.0 + sp.1.len()
}

/// Writing spans in order maps an address exactly when some span covers it.
pub proof fn lemma_spans_domain(spans: Seq<(u32, Seq<u8>)>, a: u32)
    ensures
        spans_image(spans).contains_key(a) <==> exists|j: int| 0 <= j < spans.len() && #[trigger] covers(spans[j], a),
    decreases spans.len(),
{
    if spans.len() > 0 {
        let init = spans.drop_last();
        lemma_spans_domain(init, a);
        assert(spans[spans.len() - 1] == spans.last());
        let sm = span_map(spans.last().0, spans.last().1);
        assert(sm.contains_key(a) <==> covers(spans.last(), a));
        assert(spans_image(spans) == spans_image(init).union_prefer_right(sm));
        assert(spans_image(spans).contains_key(a) <==> (spans_image(init).contains_key(a) || sm.contains_key(a)));
        if exists|j: int| 0 <= j < spans.len() && #[trigger] covers(spans[j], a) {
            let j = choose|j: int| 0 <= j < spans.len() && #[trigger] covers(spans[j], a);
            if j < spans.len() - 1 {
                assert(init[j] == spans[j]);
            }
        }
        if exists|j: int| 0 <= j < init.len() && #[trigger] covers(init[j], a) {
            let j = choose|j: int| 0 <= j < init.len() && #[trigger] covers(init[j], a);
            assert(init[j] == spans[j]);
        }
    }
}

/// Writing spans in order leaves at an address the byte of the last span
/// that covers it.
pub proof fn lemma_later_spans_win(spans: Seq<(u32, Seq<u8>)>, a: u32, i: int)
    requires
        0 <= i < spans.len(),
        covers(spans[i], a),
        forall|j: int| i < j < spans.len() ==> !#[trigger] covers(spans[j], a),
    ensures
        spans_image(spans).contains_key(a),
        spans_image(spans)[a] == spans[i].1[a - spans[i].0],
    decreases spans.len(),
{
    let init = spans.drop_last();
    assert(spans[spans.len() - 1] == spans.last());
    if i < spans.len() - 1 {
        assert(!covers(spans[spans.len() - 1], a));
        assert(init[i] == spans[i]);
        assert forall|j: int| i < j < init.len() implies !#[trigger] covers(init[j], a) by {
            assert(init[j] == spans[j]);
        }
        lemma_later_spans_win(init, a, i);
    }
}

/// Every span stays inside the 32-bit address space.
pub open spec fn all_fit(spans: Seq<(u32, Seq<u8>)>) -> bool {
    forall|i: int| 0 <= i < spans.len() ==> #[trigger] fits_address_space(spans[i].0, spans[i].1.len() as int)
}

/// Span `i` is the first that leaves the address space.
pub open spec fn first_unfit(spans: Seq<(u32, Seq<u8>)>, i: int) -> bool {
    &&& 0 <= i < spans.len()
    &&& !fits_address_space(spans[i].0, spans[i].1.len() as int)
    &&& all_fit(spans.take(i))
}

/// Writes the regions in order into one image and returns its runs.
pub fn merge_regions(regions: &[ResolvedFlashRegion]) -> (r: Result<Vec<ResolvedFlashRegion>, FlashParseError>)
    ensures
        r is Ok <==> all_fit(spans_of(regions@)),
        r matches Ok(out) ==> regions_describe(out@, spans_image(spans_of(regions@))),
        r matches Err(e) ==> exists|i: int| #[trigger] first_unfit(spans_of(regions@), i) && e == (FlashParseError::AddressOverflow {
            base_addr: regions@[i].base_addr,
            len: regions@[i].data@.len() as usize,
        }),
{
    let ghost sp = spans_of(regions@);
    let mut memory = FlashMemory::new();
    let mut i: usize = 0;
    while i < regions.len()
        invariant
            sp == spans_of(regions@),
            i <= regions@.len(),
            memory.wf(),
            memory@ == spans_image(sp.take(i as int)),
            all_fit(sp.take(i as int)),
        decreases regions@.len() - i,
    {
        let region = &regions[i];
        match memory.write(region.base_addr, region.data.as_slice()) {
            Err(e) => {
                proof {
                    assert(sp[i as int] == (region.base_addr, region.data@));
                    assert(first_unfit(sp, i as int));
                    assert(!all_fit(sp));
                }
                return Err(e);
            },
            Ok(()) => {},
        }
        proof {
            assert(sp[i as int] == (region.base_addr, region.data@));
            assert(sp.take(i + 1).drop_last() =~= sp.take(i as int));
            assert(all_fit(sp.take(i + 1))) by {
                assert forall|j: int| 0 <= j < i + 1 implies #[trigger] fits_address_space(sp.take(i + 1)[j].0, sp.take(i + 1)[j].1.len() as int) by {
                    if j < i {
                        assert(sp.take(i + 1)[j] == sp.take(i as int)[j]);
                    }
                }
            }
        }
        i = i + 1;
    }
    proof {
        assert(sp.take(regions@.len() as int) =~= sp);
    }
    Ok(memory.into_regions())
}

/// The little-endian bytes of a 32-bit value.
pub open spec fn le_bytes(v: u32) -> Seq<u8> {
    seq![(v & 0xff) as u8, ((v >> 8) & 0xff) as u8, ((v >> 16) & 0xff) as u8, ((v >> 24) & 0xff) as u8]
}

pub fn encode_inline_u32(value: u32) -> (r: Vec<u8>)
    ensures
        r@ == le_bytes(value),
{
    let mut r: Vec<u8> = Vec::new();
    r.push((value & 0xff) as u8);
    r.push(((value >> 8) & 0xff) as u8);
    r.push(((value >> 16) & 0xff) as u8);
    r.push(((value >> 24) & 0xff) as u8);
    assert(r@ =~= le_bytes(value));
    r
}

/// The two's-complement little-endian bytes of a 32-bit signed value.
pub fn encode_inline_i32(value: i32) -> (r: Vec<u8>)
    ensures
        r@ == le_bytes(value as u32),
{
    encode_inline_u32(value as u32)
}

/// The little-endian bytes of a 32-bit float, given by its bit pattern.
pub fn encode_inline_f32_bits(bits: u32) -> (r: Vec<u8>)
    ensures
        r@ == le_bytes(bits),
{
    encode_inline_u32(bits)
}

pub fn encode_inline_bool(value: bool) -> (r: Vec<u8>)
    ensures
        r@ == seq![if value { 1u8 } else { 0u8 }],
{
    let mut r: Vec<u8> = Vec::new();
    r.push(if value { 1u8 } else { 0u8 });
    assert(r@ =~= seq![if value { 1u8 } else { 0u8 }]);
    r
}

/// `r` is what the format rule gives for the name `raw`.
pub open spec fn named_format_outcome(raw: Seq<char>, r: Result<FlashFormat, FlashParseError>) -> bool {
    match format_named(ascii_lower(trim(raw))) {
        Some(f) => r == Ok::<FlashFormat, FlashParseError>(f),
        None => r matches Err(FlashParseError::UnsupportedFormat(name)) && name@ == ascii_lower(trim(raw)),
    }
}

/// The extension of a path's file name, by `std::path::Path::extension`
/// read as UTF-8. How a path splits into components depends on the platform;
/// on a plain path, where Unix and Windows read it alike, the result is the
/// extension std documents for its last segment. Of other paths nothing is
/// claimed.
#[verifier::external_body]
fn path_extension(path: &str) -> (r: Option<String>)
    ensures
        plain_path(path@) ==> match documented_extension(file_segment(path@)) {
            None => r is None,
            Some(e) => r matches Some(x) && x@ == e,
        },
{
    std::path::Path::new(path).extension().and_then(|value| value.to_str()).map(|value| value.to_string())
}

impl FlashFormat {
    /// The format of a file from its extension, given as found.
    pub fn from_extension(path: &str, extension: Option<&str>) -> (r: Result<FlashFormat, FlashParseError>)
        ensures
            extension is None ==> (r matches Err(FlashParseError::UnsupportedFormat(p)) && p@ == path@),
            extension matches Some(ext) ==> match format_named(ascii_lower(trim(ext@))) {
                Some(f) => r == Ok::<FlashFormat, FlashParseError>(f),
                None => r matches Err(FlashParseError::UnsupportedFormat(name)) && name@ == ascii_lower(trim(ext@)),
            },
    {
        match extension {
            Some(ext) => FlashFormat::parse(ext),
            None => {
                let mut p = String::new();
                push_str(&mut p, path);
                assert(p@ =~= path@);
                Err(FlashParseError::UnsupportedFormat(p))
            },
        }
    }

    /// The format of a flash file: the one named explicitly, else the one
    /// its extension names. On a plain path that is the extension std
    /// documents for its file name; on another, whichever text the platform
    /// reads as the extension, with the same rule applied to it.
    pub fn infer(path: &str, explicit: Option<&str>) -> (r: Result<FlashFormat, FlashParseError>)
        ensures
            explicit matches Some(raw) ==> named_format_outcome(raw@, r),
            explicit is None ==> (r matches Err(FlashParseError::UnsupportedFormat(p)) && p@ == path@)
                || exists|e: Seq<char>| #[trigger] named_format_outcome(e, r),
            explicit is None && plain_path(path@) ==> match documented_extension(file_segment(path@)) {
                None => r matches Err(FlashParseError::UnsupportedFormat(p)) && p@ == path@,
                Some(e) => named_format_outcome(e, r),
            },
    {
        if let Some(raw) = explicit {
            return FlashFormat::parse(raw);
        }
        let ext = path_extension(path);
        match ext {
            Some(e) => {
                let r = FlashFormat::from_extension(path, Some(e.as_str()));
                assert(named_format_outcome(e@, r));
                r
            },
            None => FlashFormat::from_extension(path, None),
        }
    }
}


/// The bytes of `v`, most significant first.
pub open spec fn be_bytes(v: u32) -> Seq<u8> {
    seq![(v >> 24u32) as u8, (v >> 16u32) as u8, (v >> 8u32) as u8, v as u8]
}

/// The text a `FlashParseError` reads as.
pub open spec fn flash_error_text(e: FlashParseError) -> Seq<char> {
    match e {
        FlashParseError::UnsupportedFormat(f) => "unsupported flash format '"@ + f@ + "'"@,
        FlashParseError::InvalidAddress(a) => "invalid flash address '"@ + a@ + "'"@,
        FlashParseError::MissingBinaryBase => "raw binary flash input requires an explicit base address"@,
        FlashParseError::AddressOverflow { base_addr, len } => "flash input exceeds 32-bit address space at 0x"@
            + hex_upper(be_bytes(base_addr)) + " (+"@ + dec(len as nat) + " bytes)"@,
        FlashParseError::InvalidIntelHex { line, message } => "invalid Intel HEX line "@ + dec(line as nat) + ": "@
            + message@,
        FlashParseError::InvalidSrec { line, message } => "invalid S-record line "@ + dec(line as nat) + ": "@ + message@,
        FlashParseError::FileRead { path, message } => "failed to read flash file '"@ + path@ + "': "@ + message@,
        FlashParseError::LoadSpec { path, message } => "load spec '"@ + path@ + "': "@ + message@,
    }
}

impl FlashParseError {
    /// The text the error reads as.
    pub fn message(&self) -> (r: String)
        ensures
            r@ == flash_error_text(*self),
    {
        let mut r = String::new();
        match self {
            FlashParseError::UnsupportedFormat(f) => {
                push_str(&mut r, "unsupported flash format '");
                push_str(&mut r, f.as_str());
                push_str(&mut r, "'");
            },
            FlashParseError::InvalidAddress(a) => {
                push_str(&mut r, "invalid flash address '");
                push_str(&mut r, a.as_str());
                push_str(&mut r, "'");
            },
            FlashParseError::MissingBinaryBase => {
                push_str(&mut r, "raw binary flash input requires an explicit base address");
            },
            FlashParseError::AddressOverflow { base_addr, len } => {
                let v: u32 = *base_addr;
                let bytes: [u8; 4] = [(v >> 24u32) as u8, (v >> 16u32) as u8, (v >> 8u32) as u8, v as u8];
                assert(bytes@ =~= be_bytes(v));
                push_str(&mut r, "flash input exceeds 32-bit address space at 0x");
                push_hex_upper(&mut r, &bytes);
                push_str(&mut r, " (+");
                push_dec(&mut r, *len as u64);
                push_str(&mut r, " bytes)");
            },
            FlashParseError::InvalidIntelHex { line, message } => {
                push_str(&mut r, "invalid Intel HEX line ");
                push_dec(&mut r, *line as u64);
                push_str(&mut r, ": ");
                push_str(&mut r, message.as_str());
            },
            FlashParseError::InvalidSrec { line, message } => {
                push_str(&mut r, "invalid S-record line ");
                push_dec(&mut r, *line as u64);
                push_str(&mut r, ": ");
                push_str(&mut r, message.as_str());
            },
            FlashParseError::FileRead { path, message } => {
                push_str(&mut r, "failed to read flash file '");
                push_str(&mut r, path.as_str());
                push_str(&mut r, "': ");
                push_str(&mut r, message.as_str());
            },
            FlashParseError::LoadSpec { path, message } => {
                push_str(&mut r, "load spec '");
                push_str(&mut r, path.as_str());
                push_str(&mut r, "': ");
                push_str(&mut r, message.as_str());
            },
        }
        assert(r@ =~= flash_error_text(*self));
        r
    }
}

} // verus!
