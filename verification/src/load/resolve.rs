//! Flash blocks of a configuration resolved into the regions a project is flashed with.
use vstd::prelude::*;
use crate::load::{
    FlashParseError, address_value, all_fit, encode_inline_bool, encode_inline_f32_bits, encode_inline_i32,
    encode_inline_u32, first_unfit, le_bytes, merge_regions, parse_address, spans_image, spans_of,
};
use crate::load::memory::{ResolvedFlashRegion, regions_describe};
use crate::text::{has_prefix, starts_with, str_chars, string_from_chars};

verus! {

/// Why a load spec could not be resolved.
#[derive(Clone, Debug, PartialEq, Eq)]
pub enum LoadResolveError {
    Message(String),
    Flash(FlashParseError),
}

/// A flash file named in a configuration.
#[derive(Clone, Debug, PartialEq, Eq)]
pub struct FlashFileBlockDef {
    pub file: String,
    pub format: Option<String>,
    pub base: Option<String>,
}

/// A flash block of a configuration: a file, or a value stored at an address.
/// A 32-bit float value is held as its bit pattern.
#[derive(Clone, Debug, PartialEq, Eq)]
pub enum FlashBlockDef {
    File(FlashFileBlockDef),
    InlineU32 { value: u32, addr: String },
    InlineI32 { value: i32, addr: String },
    InlineF32 { bits: u32, addr: String },
    InlineBool { value: bool, addr: String },
}

/// A device of a configuration: its library and flash blocks.
#[derive(Clone, Debug, PartialEq, Eq)]
pub struct DeviceDef {
    pub lib: String,
    pub flash: Vec<FlashBlockDef>,
}

/// A member of an env: a library, or a device defined elsewhere.
#[derive(Clone, Debug, PartialEq, Eq)]
pub struct EnvInstance {
    pub name: String,
    pub lib: Option<String>,
    pub device: Option<String>,
}

/// The number of file blocks among the first `n` blocks.
pub open spec fn file_blocks_before(blocks: Seq<FlashBlockDef>, n: int) -> nat
    decreases n,
{
    if n <= 0 {
        0
    } else {
        file_blocks_before(blocks, n - 1) + if blocks[n - 1] is File { 1nat } else { 0nat }
    }
}

/// What the first blocks give: their spans in order, or the first address
/// that does not read, or the first file that failed.
pub enum BlocksOutcome {
    Spans(Seq<(u32, Seq<u8>)>),
    BadAddress(Seq<char>),
    FileFailed(int),
}

/// The address text and bytes of an inline block.
pub open spec fn inline_block(b: FlashBlockDef) -> (Seq<char>, Seq<u8>) {
    match b {
        FlashBlockDef::File(_) => (Seq::empty(), Seq::empty()),
        FlashBlockDef::InlineU32 { value, addr } => (addr@, le_bytes(value)),
        FlashBlockDef::InlineI32 { value, addr } => (addr@, le_bytes(value as u32)),
        FlashBlockDef::InlineF32 { bits, addr } => (addr@, le_bytes(bits)),
        FlashBlockDef::InlineBool { value, addr } => (addr@, seq![if value { 1u8 } else { 0u8 }]),
    }
}

/// The outcome of the first `n` blocks, file blocks taking their regions from `files` in turn.
pub open spec fn blocks_spans(
    blocks: Seq<FlashBlockDef>,
    files: Seq<Result<Vec<ResolvedFlashRegion>, LoadResolveError>>,
    n: int,
) -> BlocksOutcome
    decreases n,
{
    if n <= 0 {
        BlocksOutcome::Spans(Seq::empty())
    } else {
        match blocks_spans(blocks, files, n - 1) {
            BlocksOutcome::Spans(prev) => if blocks[n - 1] is File {
                let k = file_blocks_before(blocks, n - 1) as int;
                match files[k] {
                    Ok(v) => BlocksOutcome::Spans(prev + spans_of(v@)),
                    Err(_) => BlocksOutcome::FileFailed(k),
                }
            } else {
                let (addr, data) = inline_block(blocks[n - 1]);
                match address_value(addr) {
                    Some(a) => BlocksOutcome::Spans(prev.push((a as u32, data))),
                    None => BlocksOutcome::BadAddress(addr),
                }
            },
            other => other,
        }
    }
}

proof fn lemma_blocks_stop(
    blocks: Seq<FlashBlockDef>,
    files: Seq<Result<Vec<ResolvedFlashRegion>, LoadResolveError>>,
    i: int,
    n: int,
)
    requires
        1 <= i <= n,
        !(blocks_spans(blocks, files, i) is Spans),
    ensures
        blocks_spans(blocks, files, n) == blocks_spans(blocks, files, i),
    decreases n - i,
{
    if i < n {
        lemma_blocks_stop(blocks, files, i, n - 1);
    }
}

/// Resolves flash blocks in order and merges what they give, later blocks
/// overwriting earlier ones; `file_regions` holds, for each file block in
/// turn, the regions read from its file or why they could not be.
pub fn resolve_flash_blocks(
    blocks: &[FlashBlockDef],
    file_regions: Vec<Result<Vec<ResolvedFlashRegion>, LoadResolveError>>,
) -> (r: Result<Vec<ResolvedFlashRegion>, LoadResolveError>)
    requires
        file_regions@.len() == file_blocks_before(blocks@, blocks@.len() as int),
    ensures
        match blocks_spans(blocks@, file_regions@, blocks@.len() as int) {
            BlocksOutcome::Spans(sp) => if all_fit(sp) {
                r matches Ok(out) && regions_describe(out@, spans_image(sp))
            } else {
                r matches Err(LoadResolveError::Flash(e)) && exists|i: int| #[trigger] first_unfit(sp, i)
                    && e == (FlashParseError::AddressOverflow { base_addr: sp[i].0, len: sp[i].1.len() as usize })
            },
            BlocksOutcome::BadAddress(a) => r matches Err(LoadResolveError::Flash(FlashParseError::InvalidAddress(s)))
                && s@ == a,
            BlocksOutcome::FileFailed(k) => r == file_regions@[k],
        },
{
    let ghost files = file_regions@;
    let mut pending = file_regions;
    let mut regions: Vec<ResolvedFlashRegion> = Vec::new();
    let ghost mut k: int = 0;
    let mut i: usize = 0;
    proof {
        assert(spans_of(regions@) =~= Seq::<(u32, Seq<u8>)>::empty());
        assert(pending@ =~= files.skip(0));
    }
    while i < blocks.len()
        invariant
            i <= blocks@.len(),
            files == file_regions@,
            files.len() == file_blocks_before(blocks@, blocks@.len() as int),
            k == file_blocks_before(blocks@, i as int),
            0 <= k <= files.len(),
            pending@ == files.skip(k),
            blocks_spans(blocks@, files, i as int) == BlocksOutcome::Spans(spans_of(regions@)),
        decreases blocks@.len() - i,
    {
        proof {
            lemma_file_blocks_mono(blocks@, i as int + 1, blocks@.len() as int);
        }
        match &blocks[i] {
            FlashBlockDef::File(_) => {
                proof {
                    assert(file_blocks_before(blocks@, i as int + 1) == k + 1);
                    assert(k < files.len());
                    assert(pending@[0] == files[k]);
                }
                let res = pending.remove(0);
                proof {
                    assert(res == files[k]);
                    assert(pending@ =~= files.skip(k + 1));
                }
                match res {
                    Err(e) => {
                        proof {
                            assert(blocks_spans(blocks@, files, i as int + 1) == BlocksOutcome::FileFailed(k));
                            lemma_blocks_stop(blocks@, files, i as int + 1, blocks@.len() as int);
                        }
                        return Err(e);
                    },
                    Ok(v) => {
                        let ghost before = regions@;
                        let mut v = v;
                        let ghost vv = v@;
                        let ghost mut j: int = 0;
                        proof {
                            assert(v@ =~= vv.skip(0));
                            assert(before + vv.take(0) =~= before);
                        }
                        while v.len() > 0
                            invariant
                                j + v@.len() == vv.len(),
                                0 <= j,
                                v@ == vv.skip(j),
                                regions@ == before + vv.take(j),
                            decreases v@.len(),
                        {
                            let x = v.remove(0);
                            proof {
                                assert(x == vv[j]);
                                assert(v@ =~= vv.skip(j + 1));
                                assert(before + vv.take(j + 1) =~= (before + vv.take(j)).push(x));
                            }
                            regions.push(x);
                            proof {
                                j = j + 1;
                            }
                        }
                        proof {
                            assert(vv.take(vv.len() as int) =~= vv);
                            assert(spans_of(before + vv) =~= spans_of(before) + spans_of(vv));
                            assert(files[k] matches Ok(w) && w@ == vv);
                            assert(blocks_spans(blocks@, files, i as int + 1) == BlocksOutcome::Spans(spans_of(before) + spans_of(vv)));
                        }
                        proof {
                            k = k + 1;
                        }
                    },
                }
            },
            FlashBlockDef::InlineU32 { value, addr } => {
                match parse_address(addr.as_str()) {
                    Err(e) => {
                        proof {
                            lemma_blocks_stop(blocks@, files, i as int + 1, blocks@.len() as int);
                        }
                        return Err(LoadResolveError::Flash(e));
                    },
                    Ok(base) => {
                        let ghost before = regions@;
                        regions.push(ResolvedFlashRegion { base_addr: base, data: encode_inline_u32(*value) });
                        proof {
                            assert(spans_of(regions@) =~= spans_of(before).push((base, le_bytes(*value))));
                        }
                    },
                }
            },
            FlashBlockDef::InlineI32 { value, addr } => {
                match parse_address(addr.as_str()) {
                    Err(e) => {
                        proof {
                            lemma_blocks_stop(blocks@, files, i as int + 1, blocks@.len() as int);
                        }
                        return Err(LoadResolveError::Flash(e));
                    },
                    Ok(base) => {
                        let ghost before = regions@;
                        regions.push(ResolvedFlashRegion { base_addr: base, data: encode_inline_i32(*value) });
                        proof {
                            assert(spans_of(regions@) =~= spans_of(before).push((base, le_bytes(*value as u32))));
                        }
                    },
                }
            },
            FlashBlockDef::InlineF32 { bits, addr } => {
                match parse_address(addr.as_str()) {
                    Err(e) => {
                        proof {
                            lemma_blocks_stop(blocks@, files, i as int + 1, blocks@.len() as int);
                        }
                        return Err(LoadResolveError::Flash(e));
                    },
                    Ok(base) => {
                        let ghost before = regions@;
                        regions.push(ResolvedFlashRegion { base_addr: base, data: encode_inline_f32_bits(*bits) });
                        proof {
                            assert(spans_of(regions@) =~= spans_of(before).push((base, le_bytes(*bits))));
                        }
                    },
                }
            },
            FlashBlockDef::InlineBool { value, addr } => {
                match parse_address(addr.as_str()) {
                    Err(e) => {
                        proof {
                            lemma_blocks_stop(blocks@, files, i as int + 1, blocks@.len() as int);
                        }
                        return Err(LoadResolveError::Flash(e));
                    },
                    Ok(base) => {
                        let ghost before = regions@;
                        regions.push(ResolvedFlashRegion { base_addr: base, data: encode_inline_bool(*value) });
                        proof {
                            assert(spans_of(regions@) =~= spans_of(before).push((base, seq![if *value { 1u8 } else { 0u8 }])));
                        }
                    },
                }
            },
        }
        i = i + 1;
    }
    match merge_regions(regions.as_slice()) {
        Ok(out) => Ok(out),
        Err(e) => Err(LoadResolveError::Flash(e)),
    }
}

proof fn lemma_file_blocks_mono(blocks: Seq<FlashBlockDef>, i: int, n: int)
    requires
        0 <= i <= n,
    ensures
        file_blocks_before(blocks, i) <= file_blocks_before(blocks, n),
    decreases n - i,
{
    if i < n {
        lemma_file_blocks_mono(blocks, i, n - 1);
    }
}

/// The last position of `c` in `s`.
pub open spec fn last_index(s: Seq<char>, c: char) -> int {
    choose|p: int| 0 <= p < s.len() && s[p] == c && forall|q: int| p < q < s.len() ==> s[q] != c
}

/// ASCII decimal digits only.
pub open spec fn all_ascii_digits(s: Seq<char>) -> bool {
    forall|i: int| 0 <= i < s.len() ==> '0' <= #[trigger] s[i] <= '9'
}

/// A command-line flash entry `<path>` or `<path>:<base>`: the text after the
/// last ':' is a base address when it starts with `0x`/`0X` or is all digits.
pub open spec fn cli_flash_entry(raw: Seq<char>) -> (Seq<char>, Option<Seq<char>>) {
    if !raw.contains(':') {
        (raw, None)
    } else {
        let p = last_index(raw, ':');
        let base = raw.skip(p + 1);
        if has_prefix(base, "0x"@) || has_prefix(base, "0X"@) || (base.len() > 0 && all_ascii_digits(base)) {
            (raw.take(p), Some(base))
        } else {
            (raw, None)
        }
    }
}

/// Splits a command-line flash entry into its path and optional base address.
pub fn parse_cli_flash_entry(raw: &str) -> (r: Result<(String, Option<String>), LoadResolveError>)
    ensures
        r matches Ok((path, base)) && path@ == cli_flash_entry(raw@).0 && match cli_flash_entry(raw@).1 {
            None => base is None,
            Some(b) => base matches Some(bs) && bs@ == b,
        },
{
    let cs = str_chars(raw);
    let n = cs.len();
    let mut p: usize = n;
    while p > 0 && cs[p - 1] != ':'
        invariant
            p <= n == cs@.len(),
            forall|q: int| p <= q < n ==> cs@[q] != ':',
        decreases p,
    {
        p = p - 1;
    }
    let whole = string_from_chars(cs.as_slice());
    if p == 0 {
        proof {
            assert(cs@ == raw@);
            if raw@.contains(':') {
                let q = choose|q: int| 0 <= q < raw@.len() && raw@[q] == ':';
            }
        }
        return Ok((whole, None));
    }
    let colon = p - 1;
    proof {
        let lp = last_index(cs@, ':');
        assert(cs@[colon as int] == ':');
        assert(cs@.contains(':'));
        if lp < colon {
            assert(cs@[colon as int] != ':');
        }
        if lp > colon {
            assert(cs@[lp] != ':');
        }
        assert(lp == colon);
    }
    let base = &cs.as_slice()[colon + 1..n];
    proof {
        reveal_strlit("0x");
        reveal_strlit("0X");
        assert(base@ =~= cs@.skip(colon + 1));
    }
    let mut digits = base.len() > 0;
    let mut i: usize = 0;
    while i < base.len()
        invariant
            i <= base@.len(),
            digits == (base@.len() > 0 && forall|j: int| 0 <= j < i ==> '0' <= #[trigger] base@[j] <= '9'),
        decreases base.len() - i,
    {
        if !('0' <= base[i] && base[i] <= '9') {
            digits = false;
        }
        i = i + 1;
    }
    if starts_with(base, "0x") || starts_with(base, "0X") || digits {
        let path = string_from_chars(&cs.as_slice()[0..colon]);
        proof {
            assert(cs@.subrange(0, colon as int) =~= cs@.take(colon as int));
        }
        return Ok((path, Some(string_from_chars(base))));
    }
    Ok((whole, None))
}

/// Where an env member's project comes from.
#[derive(Clone, Debug, PartialEq, Eq)]
pub enum MemberSource {
    Lib(String),
    Device(usize),
}

/// The source an env member names: its library, or the device of that name.
pub open spec fn member_source(member: EnvInstance, devices: Seq<(String, DeviceDef)>) -> Result<MemberSource, Seq<char>> {
    match (member.lib, member.device) {
        (Some(_), Some(_)) => Err("env member '"@ + member.name@ + "' cannot define both 'lib' and 'device'"@),
        (None, None) => Err("env member '"@ + member.name@ + "' must define exactly one of 'lib' or 'device'"@),
        (Some(lib), None) => Ok(MemberSource::Lib(lib)),
        (None, Some(d)) => if exists|i: int| 0 <= i < devices.len() && devices[i].0@ == d@ {
            Ok(MemberSource::Device(
                (choose|i: int| 0 <= i < devices.len() && devices[i].0@ == d@ && forall|j: int| 0 <= j < i ==> devices[j].0@ != d@) as usize,
            ))
        } else {
            Err("env member '"@ + member.name@ + "' references missing device '"@ + d@ + "'"@)
        },
    }
}

/// Decides where an env member's project comes from; a device is found by
/// name, the first of that name.
pub fn env_member_source(member: &EnvInstance, devices: &[(String, DeviceDef)]) -> (r: Result<MemberSource, LoadResolveError>)
    ensures
        match member_source(*member, devices@) {
            Ok(s) => r == Ok::<MemberSource, LoadResolveError>(s),
            Err(m) => r matches Err(LoadResolveError::Message(e)) && e@ == m,
        },
{
    match (&member.lib, &member.device) {
        (Some(_), Some(_)) => {
            let mut m = String::new();
            crate::text::push_str(&mut m, "env member '");
            crate::text::push_str(&mut m, member.name.as_str());
            crate::text::push_str(&mut m, "' cannot define both 'lib' and 'device'");
            Err(LoadResolveError::Message(m))
        },
        (None, None) => {
            let mut m = String::new();
            crate::text::push_str(&mut m, "env member '");
            crate::text::push_str(&mut m, member.name.as_str());
            crate::text::push_str(&mut m, "' must define exactly one of 'lib' or 'device'");
            Err(LoadResolveError::Message(m))
        },
        (Some(lib), None) => Ok(MemberSource::Lib(lib.clone())),
        (None, Some(d)) => {
            let mut i: usize = 0;
            while i < devices.len()
                invariant
                    i <= devices@.len(),
                    member.lib is None,
                    member.device == Some(*d),
                    forall|j: int| 0 <= j < i ==> devices@[j].0@ != d@,
                decreases devices@.len() - i,
            {
                if crate::sim::validation::same_text(devices[i].0.as_str(), d.as_str()) {
                    proof {
                        assert(0 <= i < devices@.len() && devices@[i as int].0@ == d@ && forall|j: int| 0 <= j < i ==> devices@[j].0@ != d@);
                        assert(exists|c: int| 0 <= c < devices@.len() && devices@[c].0@ == d@ && forall|j: int| 0 <= j < c ==> devices@[j].0@ != d@);
                        assert(exists|c: int| 0 <= c < devices@.len() && devices@[c].0@ == d@);
                        let c = choose|c: int| 0 <= c < devices@.len() && devices@[c].0@ == d@ && forall|j: int| 0 <= j < c ==> devices@[j].0@ != d@;
                        if c < i {
                            assert(devices@[c].0@ != d@);
                        }
                        if c > i {
                            assert(devices@[i as int].0@ != d@);
                        }
                    }
                    return Ok(MemberSource::Device(i));
                }
                i = i + 1;
            }
            let mut m = String::new();
            crate::text::push_str(&mut m, "env member '");
            crate::text::push_str(&mut m, member.name.as_str());
            crate::text::push_str(&mut m, "' references missing device '");
            crate::text::push_str(&mut m, d.as_str());
            crate::text::push_str(&mut m, "'");
            Err(LoadResolveError::Message(m))
        },
    }
}


/// The text a `LoadResolveError` reads as.
pub open spec fn resolve_error_text(e: LoadResolveError) -> Seq<char> {
    match e {
        LoadResolveError::Message(m) => m@,
        LoadResolveError::Flash(f) => crate::load::flash_error_text(f),
    }
}

impl LoadResolveError {
    /// The text the error reads as.
    pub fn message(&self) -> (r: String)
        ensures
            r@ == resolve_error_text(*self),
    {
        match self {
            LoadResolveError::Message(m) => m.clone(),
            LoadResolveError::Flash(f) => f.message(),
        }
    }
}

} // verus!
