//! Motorola S-record flash files.
use vstd::prelude::*;
use crate::load::{FlashParseError, fits_address_space};
use crate::load::ihex::{RecordFault, lemma_hex_pairs_len, lemma_line_len, lemma_trim_len, slice_bytes, tail_chars};
use crate::load::memory::{FlashMemory, ResolvedFlashRegion, regions_describe, span_map, written_at};
use crate::load::records::{
    byte_sum, checksum, decode_hex_bytes, hex_decode, is_ascii, lines_of, split_lines, utf8_size, utf8_size_of,
};
use crate::text::{dec, push_chars, push_dec, push_str, trim, trim_chars};

verus! {

/// `e` reports `f` for an S-record file.
pub open spec fn srec_fault_is(e: FlashParseError, f: RecordFault) -> bool {
    match f {
        RecordFault::Syntax { line, message } => e matches FlashParseError::InvalidSrec { line: l, message: m }
            && l == line && m@ == message,
        RecordFault::Overflow { base_addr, len } => e == (FlashParseError::AddressOverflow { base_addr, len: len as usize }),
    }
}

/// The address width, in bytes, of an S-record type.
pub open spec fn srec_addr_len(rtype: char) -> Option<nat> {
    if rtype == '0' || rtype == '1' || rtype == '5' || rtype == '9' {
        Some(2)
    } else if rtype == '2' || rtype == '6' || rtype == '8' {
        Some(3)
    } else if rtype == '3' || rtype == '7' {
        Some(4)
    } else {
        None
    }
}

/// The big-endian value of a byte sequence.
pub open spec fn be_value(bytes: Seq<u8>) -> nat
    decreases bytes.len(),
{
    if bytes.len() == 0 { 0 } else { be_value(bytes.drop_last()) * 256 + (bytes.last() as nat) }
}

/// The effect of one decoded S-record of type `rtype` on the image.
pub open spec fn srec_record(image: Map<u32, u8>, rtype: char, bytes: Seq<u8>, line: nat) -> Result<Map<u32, u8>, RecordFault> {
    if bytes.len() == 0 {
        Err(RecordFault::Syntax { line, message: "record is missing the byte-count field"@ })
    } else if bytes[0] != bytes.len() - 1 {
        Err(
            RecordFault::Syntax {
                line,
                message: "record length mismatch: byte_count="@ + dec(bytes[0] as nat) + " actual="@ + dec(
                    (bytes.len() - 1) as nat,
                ),
            },
        )
    } else if byte_sum(bytes) % 256 != 255 {
        Err(RecordFault::Syntax { line, message: "checksum mismatch"@ })
    } else {
        match srec_addr_len(rtype) {
            None => Err(RecordFault::Syntax { line, message: "unsupported record type 'S"@ + seq![rtype] + "'"@ }),
            Some(al) => if bytes.len() < al + 2 {
                Err(RecordFault::Syntax { line, message: "record is too short for its address size"@ })
            } else if rtype == '1' || rtype == '2' || rtype == '3' {
                let addr = be_value(bytes.subrange(1, 1 + al as int));
                let data = bytes.subrange(1 + al as int, bytes.len() - 1);
                if !fits_address_space(addr as u32, data.len() as int) {
                    Err(RecordFault::Overflow { base_addr: addr as u32, len: data.len() })
                } else {
                    Ok(image.union_prefer_right(span_map(addr as u32, data)))
                }
            } else {
                Ok(image)
            },
        }
    }
}

/// What each well-formed S-record does to the image: S1, S2 and S3 are
/// data records whose address takes 2, 3 and 4 bytes, big-endian, and that
/// write the bytes between address and checksum there, where they fit; S0,
/// S5, S6, S7, S8 and S9 leave the image as it is; any other type is refused
/// at its line.
pub proof fn lemma_srec_record_kinds(im: Map<u32, u8>, rtype: char, bytes: Seq<u8>, n: nat)
    requires
        bytes.len() >= 1,
        bytes[0] == bytes.len() - 1,
        byte_sum(bytes) % 256 == 255,
    ensures
        ({
            let al: int = if rtype == '1' { 2 } else if rtype == '2' { 3 } else { 4 };
            let addr = be_value(bytes.subrange(1, 1 + al));
            let data = bytes.subrange(1 + al, bytes.len() - 1);
            (rtype == '1' || rtype == '2' || rtype == '3') && bytes.len() >= al + 2 && addr + data.len() <= u32::MAX + 1
                ==> (srec_record(im, rtype, bytes, n) matches Ok(im2) && written_at(im, im2, addr as int, data))
        }),
        ({
            let al: int = if rtype == '0' || rtype == '5' || rtype == '9' { 2 } else if rtype == '6' || rtype == '8' { 3 } else { 4 };
            (rtype == '0' || rtype == '5' || rtype == '6' || rtype == '7' || rtype == '8' || rtype == '9') && bytes.len() >= al + 2
                ==> srec_record(im, rtype, bytes, n) == Ok::<Map<u32, u8>, RecordFault>(im)
        }),
        !('0' <= rtype <= '9') || rtype == '4' ==> (srec_record(im, rtype, bytes, n) matches Err(RecordFault::Syntax { line, .. }) && line == n),
{
    let al: int = if rtype == '1' { 2 } else if rtype == '2' { 3 } else { 4 };
    if (rtype == '1' || rtype == '2' || rtype == '3') && bytes.len() >= al + 2 {
        let addr = be_value(bytes.subrange(1, 1 + al));
        let data = bytes.subrange(1 + al, bytes.len() - 1);
        lemma_be_value_bound(bytes.subrange(1, 1 + al));
        if addr + data.len() <= u32::MAX + 1 {
            if data.len() > 0 {
                assert(fits_address_space(addr as u32, data.len() as int));
            }
            crate::load::memory::lemma_span_written(im, addr as u32, data);
        }
    }
}

/// An S-record is refused at its line unless its byte count matches its
/// length and its bytes, checksum included, sum to 255 modulo 256.
pub proof fn lemma_srec_record_checks(im: Map<u32, u8>, rtype: char, bytes: Seq<u8>, n: nat)
    requires
        bytes.len() >= 1,
    ensures
        bytes[0] != bytes.len() - 1 ==> (srec_record(im, rtype, bytes, n) matches Err(RecordFault::Syntax { line, .. }) && line == n),
        bytes[0] == bytes.len() - 1 && byte_sum(bytes) % 256 != 255 ==> srec_record(im, rtype, bytes, n)
            == Err::<Map<u32, u8>, RecordFault>(RecordFault::Syntax { line: n, message: "checksum mismatch"@ }),
{
}

/// The bound a big-endian value of `k` bytes stays below, up to four bytes.
spec fn be_bound(k: nat) -> nat {
    if k == 0 { 1 } else if k == 1 { 256 } else if k == 2 { 65536 } else if k == 3 { 16777216 } else { 4294967296 }
}

/// A big-endian value of at most four bytes fits 32 bits.
proof fn lemma_be_value_bound(bytes: Seq<u8>)
    requires
        bytes.len() <= 4,
    ensures
        be_value(bytes) < be_bound(bytes.len()),
        be_value(bytes) <= u32::MAX,
    decreases bytes.len(),
{
    if bytes.len() > 0 {
        lemma_be_value_bound(bytes.drop_last());
        let p = be_bound(bytes.drop_last().len());
        assert(be_bound(bytes.len()) == p * 256);
        assert(be_value(bytes.drop_last()) * 256 + (bytes.last() as nat) < p * 256) by (nonlinear_arith)
            requires be_value(bytes.drop_last()) < p, bytes.last() < 256;
    }
}

/// The effect of one trimmed line; `None` where std would panic on it.
pub open spec fn srec_line(image: Map<u32, u8>, t: Seq<char>, line: nat) -> Option<Result<Map<u32, u8>, RecordFault>> {
    if t.len() == 0 {
        Some(Ok(image))
    } else if t[0] != 'S' || utf8_size(t) < 4 {
        Some(Err(RecordFault::Syntax { line, message: "record must start with 'S' and include a type/length"@ }))
    } else if !is_ascii(t[1]) {
        None
    } else {
        let rest = t.skip(2);
        if utf8_size(rest) % 2 != 0 {
            Some(Err(RecordFault::Syntax { line, message: "record hex payload must contain an even number of digits"@ }))
        } else {
            match hex_decode(rest) {
                None => None,
                Some(Err(m)) => Some(Err(RecordFault::Syntax { line, message: m })),
                Some(Ok(bytes)) => Some(srec_record(image, t[1], bytes, line)),
            }
        }
    }
}

/// The image read from the lines from `j` on; lines are numbered from 1.
pub open spec fn srec_from(lines: Seq<Seq<char>>, j: int, image: Map<u32, u8>) -> Option<Result<Map<u32, u8>, RecordFault>>
    decreases lines.len() - j,
{
    if j < 0 || j >= lines.len() {
        Some(Ok(image))
    } else {
        match srec_line(image, trim(lines[j]), (j + 1) as nat) {
            None => None,
            Some(Err(f)) => Some(Err(f)),
            Some(Ok(im2)) => srec_from(lines, j + 1, im2),
        }
    }
}

/// The outcome of reading an S-record text.
pub open spec fn srec_image(content: Seq<char>) -> Option<Result<Map<u32, u8>, RecordFault>> {
    srec_from(lines_of(content), 0, Map::empty())
}

fn srec_syntax(line_no: usize, text: &str) -> (e: FlashParseError)
    ensures
        e matches FlashParseError::InvalidSrec { line: l, message: m } && l == line_no && m@ == text@,
{
    let mut m = String::new();
    push_str(&mut m, text);
    assert(m@ =~= text@);
    FlashParseError::InvalidSrec { line: line_no, message: m }
}

fn be_value_of(bytes: &[u8], lo: usize, hi: usize) -> (r: u32)
    requires
        lo <= hi <= bytes@.len(),
        hi - lo <= 4,
    ensures
        r as nat == be_value(bytes@.subrange(lo as int, hi as int)),
{
    let mut acc: u32 = 0;
    let mut i: usize = lo;
    while i < hi
        invariant
            lo <= i <= hi <= bytes@.len(),
            hi - lo <= 4,
            acc as nat == be_value(bytes@.subrange(lo as int, i as int)),
            i - lo == 0 ==> acc == 0,
            i - lo == 1 ==> acc < 0x100,
            i - lo == 2 ==> acc < 0x1_0000,
            i - lo == 3 ==> acc < 0x100_0000,
        decreases hi - i,
    {
        proof {
            assert(bytes@.subrange(lo as int, i + 1).drop_last() =~= bytes@.subrange(lo as int, i as int));
        }
        acc = acc * 256 + (bytes[i] as u32);
        i = i + 1;
    }
    acc
}

/// Applies one decoded record.
fn srec_apply_record(memory: &mut FlashMemory, rtype: char, bytes: &[u8], line_no: usize) -> (r: Result<(), FlashParseError>)
    requires
        old(memory).wf(),
    ensures
        final(memory).wf(),
        match srec_record(old(memory)@, rtype, bytes@, line_no as nat) {
            Ok(im2) => r is Ok && final(memory)@ == im2,
            Err(f) => r matches Err(e) && srec_fault_is(e, f),
        },
{
    if bytes.len() == 0 {
        return Err(srec_syntax(line_no, "record is missing the byte-count field"));
    }
    let declared = bytes[0] as usize;
    if declared != bytes.len() - 1 {
        let mut m = String::new();
        push_str(&mut m, "record length mismatch: byte_count=");
        push_dec(&mut m, declared as u64);
        push_str(&mut m, " actual=");
        push_dec(&mut m, (bytes.len() - 1) as u64);
        return Err(FlashParseError::InvalidSrec { line: line_no, message: m });
    }
    if checksum(bytes) != 0xFF {
        return Err(srec_syntax(line_no, "checksum mismatch"));
    }
    let addr_len: usize = if rtype == '0' || rtype == '1' || rtype == '5' || rtype == '9' {
        2
    } else if rtype == '2' || rtype == '6' || rtype == '8' {
        3
    } else if rtype == '3' || rtype == '7' {
        4
    } else {
        let mut m = String::new();
        push_str(&mut m, "unsupported record type 'S");
        let one: [char; 1] = [rtype];
        push_chars(&mut m, one.as_slice());
        push_str(&mut m, "'");
        proof {
            assert(one@ =~= seq![rtype]);
        }
        return Err(FlashParseError::InvalidSrec { line: line_no, message: m });
    };
    if bytes.len() < addr_len + 2 {
        return Err(srec_syntax(line_no, "record is too short for its address size"));
    }
    if rtype == '1' || rtype == '2' || rtype == '3' {
        let addr = be_value_of(bytes, 1, 1 + addr_len);
        let data = slice_bytes(bytes, 1 + addr_len, bytes.len() - 1);
        match memory.write(addr, data.as_slice()) {
            Err(e) => Err(e),
            Ok(()) => Ok(()),
        }
    } else {
        Ok(())
    }
}

/// Applies one trimmed line; `None` where std would panic on it.
fn srec_apply_line(memory: &mut FlashMemory, t: &[char], line_no: usize) -> (r: Option<Result<(), FlashParseError>>)
    requires
        old(memory).wf(),
        4 * t@.len() <= usize::MAX,
    ensures
        final(memory).wf(),
        match srec_line(old(memory)@, t@, line_no as nat) {
            None => r is None,
            Some(Ok(im2)) => r matches Some(Ok(_)) && final(memory)@ == im2,
            Some(Err(f)) => r matches Some(Err(e)) && srec_fault_is(e, f),
        },
{
    if t.len() == 0 {
        return Some(Ok(()));
    }
    let size = utf8_size_of(t);
    if t[0] != 'S' || size < 4 {
        return Some(Err(srec_syntax(line_no, "record must start with 'S' and include a type/length")));
    }
    proof {
        crate::load::ihex::lemma_utf8_size_front_pub(t@);
    }
    let rtype = t[1];
    if (rtype as u32) >= 0x80 {
        return None;
    }
    let rest = tail_chars(t, 2);
    let rest_size = utf8_size_of(rest.as_slice());
    if rest_size % 2 != 0 {
        return Some(Err(srec_syntax(line_no, "record hex payload must contain an even number of digits")));
    }
    match decode_hex_bytes(rest.as_slice()) {
        None => None,
        Some(Err(m)) => Some(Err(FlashParseError::InvalidSrec { line: line_no, message: m })),
        Some(Ok(bytes)) => Some(srec_apply_record(memory, rtype, bytes.as_slice(), line_no)),
    }
}

/// Reads an S-record text into the runs of the image it describes; `None`
/// where std would panic on it, slicing inside a character, or for a text
/// too long to index.
pub fn parse_srec_checked(content: &str) -> (r: Option<Result<Vec<ResolvedFlashRegion>, FlashParseError>>)
    ensures
        r is Some <==> (srec_image(content@) is Some && 4 * content@.len() <= usize::MAX),
        r matches Some(res) ==> match srec_image(content@).unwrap() {
            Ok(image) => res matches Ok(regions) && regions_describe(regions@, image),
            Err(f) => res matches Err(e) && srec_fault_is(e, f),
        },
{
    let n = crate::text::str_chars(content).len();
    if n > usize::MAX / 4 {
        return None;
    }
    let lines = split_lines(content);
    let ghost ls = lines_of(content@);
    let mut memory = FlashMemory::new();
    let mut j: usize = 0;
    while j < lines.len()
        invariant
            lines@.len() == ls.len(),
            forall|i: int| 0 <= i < lines@.len() ==> #[trigger] lines@[i]@ == ls[i],
            ls == lines_of(content@),
            4 * content@.len() <= usize::MAX,
            j <= ls.len(),
            memory.wf(),
            srec_image(content@) == srec_from(ls, j as int, memory@),
        decreases lines.len() - j,
    {
        proof {
            lemma_line_len(content@, j as int);
        }
        let t = trim_chars(lines[j].as_slice());
        proof {
            assert(lines@[j as int]@ == ls[j as int]);
            assert(t@.len() <= ls[j as int].len()) by {
                lemma_trim_len(ls[j as int]);
            }
            assert(t@ == trim(ls[j as int]));
        }
        match srec_apply_line(&mut memory, t.as_slice(), j + 1) {
            None => {
                return None;
            },
            Some(Err(e)) => {
                return Some(Err(e));
            },
            Some(Ok(())) => {},
        }
        j = j + 1;
    }
    Some(Ok(memory.into_regions()))
}

/// Reads an S-record text into the runs of the image it describes.
pub fn parse_srec(content: &str) -> (r: Result<Vec<ResolvedFlashRegion>, FlashParseError>)
    requires
        4 * content@.len() <= usize::MAX,
        srec_image(content@) is Some,
    ensures
        match srec_image(content@).unwrap() {
            Ok(image) => r matches Ok(regions) && regions_describe(regions@, image),
            Err(f) => r matches Err(e) && srec_fault_is(e, f),
        },
{
    match parse_srec_checked(content) {
        Some(res) => res,
        None => vstd::pervasive::unreached(),
    }
}

proof fn lemma_srec_from_ascii(lines: Seq<Seq<char>>, j: int, image: Map<u32, u8>)
    requires
        forall|k: int| 0 <= k < lines.len() ==> crate::load::records::all_ascii(#[trigger] lines[k]),
    ensures
        srec_from(lines, j, image) is Some,
    decreases lines.len() - j,
{
    if 0 <= j < lines.len() {
        let t = crate::text::trim(lines[j]);
        crate::load::records::lemma_trim_ascii(lines[j]);
        crate::load::records::lemma_utf8_size_ascii(t);
        if t.len() >= 2 {
            assert(crate::load::records::is_ascii(t[1]));
            crate::load::records::lemma_skip_ascii(t, 2);
            crate::load::records::lemma_hex_decode_ascii(t.skip(2));
        }
        match srec_line(image, t, (j + 1) as nat) {
            Some(Ok(im2)) => {
                lemma_srec_from_ascii(lines, j + 1, im2);
            },
            _ => {},
        }
    }
}

/// An ASCII text never makes the S-record reader slice inside a character,
/// so it always has an outcome.
pub proof fn lemma_ascii_srec_image(content: Seq<char>)
    requires
        crate::load::records::all_ascii(content),
    ensures
        srec_image(content) is Some,
{
    crate::load::records::lemma_lines_ascii(content);
    lemma_srec_from_ascii(lines_of(content), 0, Map::empty());
}

} // verus!
