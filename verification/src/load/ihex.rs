//! Intel HEX flash files.
use vstd::prelude::*;
use crate::load::{FlashParseError, fits_address_space};
use crate::load::memory::{FlashMemory, ResolvedFlashRegion, regions_describe, span_map, written_at};
use crate::load::records::{
    byte_sum, checksum, decode_hex_bytes, hex_decode, hex_pairs, lines_of, split_lines, utf8_size,
    utf8_size_of, utf8_len,
};
use crate::text::{dec, digit_value, digits_value, all_digits, hex_upper, is_ws, parse_unsigned, push_dec, push_hex_upper, push_str, trim, trim_start, trim_chars, unsigned_digits};
use crate::load::records::{all_ascii, is_ascii, lemma_hex_pair_value, lemma_utf8_size_ascii};

verus! {

/// What makes a line of a flash text file unusable.
pub enum RecordFault {
    Syntax { line: nat, message: Seq<char> },
    Overflow { base_addr: u32, len: nat },
}

/// `e` reports `f` for an Intel HEX file.
pub open spec fn ihex_fault_is(e: FlashParseError, f: RecordFault) -> bool {
    match f {
        RecordFault::Syntax { line, message } => e matches FlashParseError::InvalidIntelHex { line: l, message: m }
            && l == line && m@ == message,
        RecordFault::Overflow { base_addr, len } => e == (FlashParseError::AddressOverflow { base_addr, len: len as usize }),
    }
}

/// `a - b`, or 0 when `b` is larger.
pub open spec fn sat_sub(a: nat, b: nat) -> nat {
    if a >= b { (a - b) as nat } else { 0 }
}

/// The effect of one decoded Intel HEX record on the upper address and the
/// image; the flag is set by the end-of-file record.
pub open spec fn ihex_record(upper: u32, image: Map<u32, u8>, bytes: Seq<u8>, line: nat) -> Result<
    (u32, Map<u32, u8>, bool),
    RecordFault,
> {
    let count = bytes[0] as nat;
    if bytes.len() != count + 5 {
        Err(
            RecordFault::Syntax {
                line,
                message: "record length mismatch: byte_count="@ + dec(count) + " actual_data_bytes="@ + dec(
                    sat_sub(bytes.len(), 5),
                ),
            },
        )
    } else if byte_sum(bytes) % 256 != 0 {
        Err(RecordFault::Syntax { line, message: "checksum mismatch"@ })
    } else {
        let address = bytes[1] * 256 + bytes[2];
        let rtype = bytes[3];
        let data = bytes.subrange(4, 4 + count as int);
        if rtype == 0 {
            if upper + address > u32::MAX {
                Err(RecordFault::Overflow { base_addr: upper, len: address as nat })
            } else if !fits_address_space((upper + address) as u32, count as int) {
                Err(RecordFault::Overflow { base_addr: (upper + address) as u32, len: count })
            } else {
                Ok((upper, image.union_prefer_right(span_map((upper + address) as u32, data)), false))
            }
        } else if rtype == 1 {
            Ok((upper, image, true))
        } else if rtype == 2 {
            if count != 2 {
                Err(RecordFault::Syntax { line, message: "extended segment address record must contain 2 data bytes"@ })
            } else {
                Ok((((data[0] * 256 + data[1]) * 16) as u32, image, false))
            }
        } else if rtype == 4 {
            if count != 2 {
                Err(RecordFault::Syntax { line, message: "extended linear address record must contain 2 data bytes"@ })
            } else {
                Ok((((data[0] * 256 + data[1]) * 65536) as u32, image, false))
            }
        } else if rtype == 3 || rtype == 5 {
            Ok((upper, image, false))
        } else {
            Err(RecordFault::Syntax { line, message: "unsupported record type 0x"@ + hex_upper(seq![rtype]) })
        }
    }
}

/// The effect of one trimmed line; `None` where std would panic on it.
pub open spec fn ihex_line(upper: u32, image: Map<u32, u8>, t: Seq<char>, line: nat) -> Option<
    Result<(u32, Map<u32, u8>, bool), RecordFault>,
> {
    if t.len() == 0 {
        Some(Ok((upper, image, false)))
    } else if t[0] != ':' {
        Some(Err(RecordFault::Syntax { line, message: "record must start with ':'"@ }))
    } else {
        let p = t.drop_first();
        if utf8_size(p) < 10 || utf8_size(p) % 2 != 0 {
            Some(Err(RecordFault::Syntax { line, message: "record has invalid hex length"@ }))
        } else {
            match hex_decode(p) {
                None => None,
                Some(Err(m)) => Some(Err(RecordFault::Syntax { line, message: m })),
                Some(Ok(bytes)) => Some(ihex_record(upper, image, bytes, line)),
            }
        }
    }
}

/// The image read from the lines from `j` on, starting from `upper` and
/// `image`; lines are numbered from 1 and stop at the end-of-file record.
pub open spec fn ihex_from(lines: Seq<Seq<char>>, j: int, upper: u32, image: Map<u32, u8>) -> Option<
    Result<Map<u32, u8>, RecordFault>,
>
    decreases lines.len() - j,
{
    if j < 0 || j >= lines.len() {
        Some(Ok(image))
    } else {
        match ihex_line(upper, image, trim(lines[j]), (j + 1) as nat) {
            None => None,
            Some(Err(f)) => Some(Err(f)),
            Some(Ok((u2, im2, done))) => if done { Some(Ok(im2)) } else { ihex_from(lines, j + 1, u2, im2) },
        }
    }
}

/// The outcome of reading an Intel HEX text.
pub open spec fn ihex_image(content: Seq<char>) -> Option<Result<Map<u32, u8>, RecordFault>> {
    ihex_from(lines_of(content), 0, 0, Map::empty())
}

/// `t` is an end-of-file record line: whatever the upper address and image,
/// reading it ends the file and changes neither.
pub open spec fn end_of_file_line(t: Seq<char>) -> bool {
    forall|u: u32, im: Map<u32, u8>, n: nat| #[trigger] ihex_line(u, im, trim(t), n)
        == Some(Ok::<(u32, Map<u32, u8>, bool), RecordFault>((u, im, true)))
}

proof fn lemma_ihex_from_stops(l1: Seq<Seq<char>>, l2: Seq<Seq<char>>, j: int, k: int, u: u32, im: Map<u32, u8>)
    requires
        0 <= j <= k,
        k < l1.len(),
        k < l2.len(),
        forall|i: int| j <= i <= k ==> l1[i] == l2[i],
        end_of_file_line(l1[k]),
    ensures
        ihex_from(l1, j, u, im) == ihex_from(l2, j, u, im),
    decreases k - j,
{
    assert(l1[j] == l2[j]);
    if j == k {
        assert(ihex_line(u, im, trim(l1[k]), (k + 1) as nat) == Some(Ok::<(u32, Map<u32, u8>, bool), RecordFault>((u, im, true))));
    } else {
        match ihex_line(u, im, trim(l1[j]), (j + 1) as nat) {
            Some(Ok((u2, im2, done))) => {
                if !done {
                    lemma_ihex_from_stops(l1, l2, j + 1, k, u2, im2);
                }
            },
            _ => {},
        }
    }
}

proof fn lemma_lines_single(t: Seq<char>)
    requires
        !t.contains('\n'),
    ensures
        lines_of(t) == seq![t],
    decreases t.len(),
{
    if t.len() > 0 {
        assert(!t.drop_last().contains('\n')) by {
            if t.drop_last().contains('\n') {
                let i = choose|i: int| 0 <= i < t.drop_last().len() && t.drop_last()[i] == '\n';
                assert(t[i] == '\n');
            }
        }
        lemma_lines_single(t.drop_last());
        assert(t.last() != '\n') by {
            assert(t[t.len() - 1] == t.last());
        }
        assert(t.drop_last().push(t.last()) =~= t);
        assert(seq![t.drop_last()].update(0, t) =~= seq![t]);
    } else {
        assert(t =~= Seq::<char>::empty());
    }
}

proof fn lemma_hex_pairs_step(cs: Seq<char>, v: nat, rest: Seq<u8>)
    requires
        cs.len() >= 2,
        is_ascii(cs[0]),
        is_ascii(cs[1]),
        parse_unsigned(cs.take(2), 16, 255) == Some(v),
        hex_pairs(cs.skip(2)) == Some(Ok::<Seq<u8>, Seq<char>>(rest)),
    ensures
        hex_pairs(cs) == Some(Ok::<Seq<u8>, Seq<char>>(seq![v as u8] + rest)),
{
}

/// What each well-formed Intel HEX record does, whatever the upper address
/// and image it meets: a data record (00) writes its bytes at the upper
/// address plus its own, where they fit; the end-of-file record (01) ends
/// the file with nothing changed; the extended segment (02) and linear (04)
/// address records set the upper address to their two bytes times 16 and
/// times 65536; the start address records (03, 05) change nothing and go
/// on; any other type is refused at its line.
pub proof fn lemma_ihex_record_kinds(u: u32, im: Map<u32, u8>, bytes: Seq<u8>, n: nat)
    requires
        bytes.len() >= 5,
        bytes.len() == bytes[0] + 5,
        byte_sum(bytes) % 256 == 0,
    ensures
        bytes[3] == 0 && u + bytes[1] * 256 + bytes[2] <= u32::MAX && u + bytes[1] * 256 + bytes[2] + bytes[0] <= u32::MAX + 1 ==> (ihex_record(u, im, bytes, n) matches Ok((u2, im2, done))
            && u2 == u && !done && written_at(im, im2, u + bytes[1] * 256 + bytes[2], bytes.subrange(4, bytes.len() - 1))),
        bytes[3] == 1 ==> ihex_record(u, im, bytes, n) == Ok::<(u32, Map<u32, u8>, bool), RecordFault>((u, im, true)),
        bytes[3] == 2 && bytes[0] == 2 ==> (ihex_record(u, im, bytes, n) matches Ok((u2, im2, done))
            && u2 == (bytes[4] * 256 + bytes[5]) * 16 && im2 == im && !done),
        bytes[3] == 4 && bytes[0] == 2 ==> (ihex_record(u, im, bytes, n) matches Ok((u2, im2, done))
            && u2 == (bytes[4] * 256 + bytes[5]) * 65536 && im2 == im && !done),
        bytes[3] == 3 || bytes[3] == 5 ==> ihex_record(u, im, bytes, n) == Ok::<(u32, Map<u32, u8>, bool), RecordFault>((u, im, false)),
        bytes[3] > 5 ==> (ihex_record(u, im, bytes, n) matches Err(RecordFault::Syntax { line, .. }) && line == n),
{
    let count = bytes[0] as nat;
    let address = bytes[1] * 256 + bytes[2];
    let data = bytes.subrange(4, 4 + count as int);
    assert(bytes.subrange(4, bytes.len() - 1) =~= data);
    if bytes[3] == 0 && u + address <= u32::MAX && u + address + count <= u32::MAX + 1 {
        if count > 0 {
            assert(fits_address_space((u + address) as u32, count as int));
        }
        crate::load::memory::lemma_span_written(im, (u + address) as u32, data);
    }
    if bytes[3] == 2 && count == 2 {
        assert(data[0] == bytes[4] && data[1] == bytes[5]);
    }
    if bytes[3] == 4 && count == 2 {
        assert(data[0] == bytes[4] && data[1] == bytes[5]);
    }
}

/// An Intel HEX record is refused at its line unless its byte count
/// matches its length and its bytes, checksum included, sum to a multiple
/// of 256.
pub proof fn lemma_ihex_record_checks(u: u32, im: Map<u32, u8>, bytes: Seq<u8>, n: nat)
    requires
        bytes.len() >= 1,
    ensures
        bytes.len() != bytes[0] + 5 ==> (ihex_record(u, im, bytes, n) matches Err(RecordFault::Syntax { line, .. }) && line == n),
        bytes.len() == bytes[0] + 5 && byte_sum(bytes) % 256 != 0 ==> ihex_record(u, im, bytes, n)
            == Err::<(u32, Map<u32, u8>, bool), RecordFault>(RecordFault::Syntax { line: n, message: "checksum mismatch"@ }),
{
}

/// The usual end-of-file record line `:00000001FF` is one.
pub proof fn lemma_standard_end_of_file_line()
    ensures
        end_of_file_line(":00000001FF"@),
{
    let t = seq![':', '0', '0', '0', '0', '0', '0', '0', '1', 'F', 'F'];
    let p = seq!['0', '0', '0', '0', '0', '0', '0', '1', 'F', 'F'];
    reveal_strlit(":00000001FF");
    assert(":00000001FF"@ =~= t);
    assert(!is_ws(':') && !is_ws('F'));
    assert(trim_start(t) == t);
    assert(trim(t) == t);
    assert(t.drop_first() =~= p);
    assert(all_ascii(p)) by {
        assert forall|i: int| 0 <= i < p.len() implies is_ascii(#[trigger] p[i]) by {}
    }
    lemma_utf8_size_ascii(p);
    let q4 = seq!['F', 'F'];
    let q3 = seq!['0', '1', 'F', 'F'];
    let q2 = seq!['0', '0', '0', '1', 'F', 'F'];
    let q1 = seq!['0', '0', '0', '0', '0', '1', 'F', 'F'];
    let zero = seq!['0', '0'];
    assert(digit_value('0', 16) == Some(0nat));
    assert(digit_value('1', 16) == Some(1nat));
    assert(digit_value('F', 16) == Some(15nat));
    lemma_hex_pair_value('0', '0', 0);
    lemma_hex_pair_value('0', '1', 1);
    lemma_hex_pair_value('F', 'F', 255);
    assert(q4.skip(2) =~= Seq::<char>::empty());
    assert(q4.take(2) =~= q4);
    lemma_hex_pairs_step(q4, 255, Seq::empty());
    assert(q3.skip(2) =~= q4);
    assert(q3.take(2) =~= seq!['0', '1']);
    lemma_hex_pairs_step(q3, 1, seq![255u8]);
    assert(q2.skip(2) =~= q3);
    assert(q2.take(2) =~= zero);
    lemma_hex_pairs_step(q2, 0, seq![1u8] + seq![255u8]);
    assert(q1.skip(2) =~= q2);
    assert(q1.take(2) =~= zero);
    lemma_hex_pairs_step(q1, 0, seq![0u8] + (seq![1u8] + seq![255u8]));
    assert(p.skip(2) =~= q1);
    assert(p.take(2) =~= zero);
    lemma_hex_pairs_step(p, 0, seq![0u8] + (seq![0u8] + (seq![1u8] + seq![255u8])));
    let bytes = seq![0u8] + (seq![0u8] + (seq![0u8] + (seq![1u8] + seq![255u8])));
    assert(bytes =~= seq![0u8, 0u8, 0u8, 1u8, 255u8]);
    assert(hex_decode(p) == Some(Ok::<Seq<u8>, Seq<char>>(bytes)));
    assert(bytes.drop_last() =~= seq![0u8, 0u8, 0u8, 1u8]);
    assert(bytes.drop_last().drop_last() =~= seq![0u8, 0u8, 0u8]);
    assert(bytes.drop_last().drop_last().drop_last() =~= seq![0u8, 0u8]);
    assert(seq![0u8, 0u8].drop_last() =~= seq![0u8]);
    assert(seq![0u8].drop_last() =~= Seq::<u8>::empty());
    assert(byte_sum(Seq::<u8>::empty()) == 0);
    assert(seq![0u8].last() == 0u8);
    assert(byte_sum(seq![0u8]) == 0);
    assert(seq![0u8, 0u8].last() == 0u8);
    assert(seq![0u8, 0u8, 0u8].last() == 0u8);
    assert(seq![0u8, 0u8, 0u8, 1u8].last() == 1u8);
    assert(bytes.last() == 255u8);
    assert(byte_sum(seq![0u8, 0u8]) == 0);
    assert(byte_sum(seq![0u8, 0u8, 0u8]) == 0);
    assert(byte_sum(seq![0u8, 0u8, 0u8, 1u8]) == 1);
    assert(byte_sum(bytes) == 256);
    assert forall|u: u32, im: Map<u32, u8>, n: nat| #[trigger] ihex_line(u, im, trim(t), n)
        == Some(Ok::<(u32, Map<u32, u8>, bool), RecordFault>((u, im, true))) by {
        assert(bytes[0] == 0u8 && bytes[3] == 1u8 && bytes.len() == 5);
    }
}

/// Nothing after the first end-of-file record is read: text appended after
/// that record's line leaves what the reader gives unchanged, the same
/// regions or the same fault, and no outcome where there was none.
pub proof fn lemma_nothing_after_end_of_file(a: Seq<char>, t: Seq<char>, b: Seq<char>)
    requires
        a.len() == 0 || a.last() == '\n',
        !t.contains('\n'),
        end_of_file_line(t),
    ensures
        ihex_image(a + t.push('\n') + b) == ihex_image(a + t.push('\n')),
{
    let x = a + t.push('\n');
    assert(x.last() == '\n');
    crate::load::records::lemma_lines_concat(x, b);
    crate::load::records::lemma_lines_concat(a, t.push('\n'));
    lemma_lines_single(t);
    assert(t.push('\n').drop_last() =~= t);
    assert(lines_of(t.push('\n')) == lines_of(t).push(Seq::<char>::empty()));
    let pre = lines_of(a).drop_last();
    let l1 = lines_of(x);
    let l2 = lines_of(x + b);
    assert(l1 =~= pre + seq![t, Seq::<char>::empty()]);
    crate::load::records::lemma_lines_nonempty(b);
    assert(l1.drop_last() =~= pre + seq![t]);
    let k = pre.len() as int;
    assert(l1[k] == t);
    assert(l2[k] == t);
    assert forall|i: int| 0 <= i <= k implies l1[i] == l2[i] by {
        if i < k {
            assert(l1[i] == pre[i]);
            assert(l2[i] == pre[i]);
        }
    }
    lemma_ihex_from_stops(l1, l2, 0, k, 0, Map::empty());
}

pub proof fn lemma_hex_pairs_len(cs: Seq<char>)
    requires
        hex_pairs(cs) matches Some(Ok(b)),
    ensures
        hex_pairs(cs) matches Some(Ok(b)) && 2 * b.len() == utf8_size(cs),
    decreases cs.len(),
{
    if cs.len() > 0 {
        let rest = cs.skip(2);
        lemma_hex_pairs_len(rest);
        lemma_utf8_size_front(cs);
        lemma_utf8_size_front(cs.drop_first());
        assert(cs.drop_first().drop_first() =~= rest);
    }
}

/// The UTF-8 size of a text is that of its first character plus the rest's.
pub proof fn lemma_utf8_size_front_pub(cs: Seq<char>)
    requires
        cs.len() >= 1,
    ensures
        utf8_size(cs) == utf8_len(cs[0]) + utf8_size(cs.drop_first()),
        cs.len() >= 2 ==> utf8_size(cs) == utf8_len(cs[0]) + utf8_len(cs[1]) + utf8_size(cs.skip(2)),
{
    lemma_utf8_size_front(cs);
    if cs.len() >= 2 {
        lemma_utf8_size_front(cs.drop_first());
        assert(cs.drop_first().drop_first() =~= cs.skip(2));
    }
}

proof fn lemma_utf8_size_front(cs: Seq<char>)
    requires
        cs.len() >= 1,
    ensures
        utf8_size(cs) == utf8_len(cs[0]) + utf8_size(cs.drop_first()),
    decreases cs.len(),
{
    if cs.len() > 1 {
        lemma_utf8_size_front(cs.drop_last());
        assert(cs.drop_last().drop_first() =~= cs.drop_first().drop_last());
    } else {
        assert(cs.drop_first() =~= Seq::<char>::empty());
        assert(cs.drop_last() =~= Seq::<char>::empty());
    }
}

fn ihex_syntax(line_no: usize, text: &str) -> (e: FlashParseError)
    ensures
        e matches FlashParseError::InvalidIntelHex { line: l, message: m } && l == line_no && m@ == text@,
{
    let mut m = String::new();
    push_str(&mut m, text);
    assert(m@ =~= text@);
    FlashParseError::InvalidIntelHex { line: line_no, message: m }
}

/// Applies one decoded record.
fn ihex_apply_record(upper: &mut u32, memory: &mut FlashMemory, bytes: &[u8], line_no: usize) -> (r: Result<bool, FlashParseError>)
    requires
        old(memory).wf(),
        bytes@.len() >= 5,
    ensures
        final(memory).wf(),
        match ihex_record(*old(upper), old(memory)@, bytes@, line_no as nat) {
            Ok((u2, im2, done)) => r == Ok::<bool, FlashParseError>(done) && *final(upper) == u2 && final(memory)@ == im2,
            Err(f) => r matches Err(e) && ihex_fault_is(e, f),
        },
{
    let count = bytes[0] as usize;
    if bytes.len() != count + 5 {
        let mut m = String::new();
        push_str(&mut m, "record length mismatch: byte_count=");
        push_dec(&mut m, count as u64);
        push_str(&mut m, " actual_data_bytes=");
        push_dec(&mut m, (bytes.len() - 5) as u64);
        return Err(FlashParseError::InvalidIntelHex { line: line_no, message: m });
    }
    if checksum(bytes) != 0 {
        return Err(ihex_syntax(line_no, "checksum mismatch"));
    }
    let address: u32 = (bytes[1] as u32) * 256 + (bytes[2] as u32);
    let rtype = bytes[3];
    let data = slice_bytes(bytes, 4, 4 + count);
    if rtype == 0 {
        if address as u64 + *upper as u64 > u32::MAX as u64 {
            return Err(FlashParseError::AddressOverflow { base_addr: *upper, len: address as usize });
        }
        let base: u32 = *upper + address;
        match memory.write(base, data.as_slice()) {
            Err(e) => Err(e),
            Ok(()) => Ok(false),
        }
    } else if rtype == 1 {
        Ok(true)
    } else if rtype == 2 {
        if count != 2 {
            return Err(ihex_syntax(line_no, "extended segment address record must contain 2 data bytes"));
        }
        *upper = ((data[0] as u32) * 256 + (data[1] as u32)) * 16;
        Ok(false)
    } else if rtype == 4 {
        if count != 2 {
            return Err(ihex_syntax(line_no, "extended linear address record must contain 2 data bytes"));
        }
        *upper = ((data[0] as u32) * 256 + (data[1] as u32)) * 65536;
        Ok(false)
    } else if rtype == 3 || rtype == 5 {
        Ok(false)
    } else {
        let mut m = String::new();
        push_str(&mut m, "unsupported record type 0x");
        let one: [u8; 1] = [rtype];
        push_hex_upper(&mut m, one.as_slice());
        proof {
            assert(one@ =~= seq![rtype]);
        }
        Err(FlashParseError::InvalidIntelHex { line: line_no, message: m })
    }
}

/// The bytes of `bytes` from `lo` up to `hi`.
pub fn slice_bytes(bytes: &[u8], lo: usize, hi: usize) -> (r: Vec<u8>)
    requires
        lo <= hi <= bytes@.len(),
    ensures
        r@ == bytes@.subrange(lo as int, hi as int),
{
    let mut r: Vec<u8> = Vec::new();
    let mut i: usize = lo;
    while i < hi
        invariant
            lo <= i <= hi <= bytes@.len(),
            r@ == bytes@.subrange(lo as int, i as int),
        decreases hi - i,
    {
        r.push(bytes[i]);
        assert(bytes@.subrange(lo as int, i + 1) =~= bytes@.subrange(lo as int, i as int).push(bytes@[i as int]));
        i = i + 1;
    }
    r
}

/// The characters of `t` after the first.
pub fn tail_chars(t: &[char], from: usize) -> (r: Vec<char>)
    requires
        from <= t@.len(),
    ensures
        r@ == t@.skip(from as int),
{
    let mut r: Vec<char> = Vec::new();
    let mut i: usize = from;
    while i < t.len()
        invariant
            from <= i <= t@.len(),
            r@ == t@.subrange(from as int, i as int),
        decreases t.len() - i,
    {
        r.push(t[i]);
        assert(t@.subrange(from as int, i + 1) =~= t@.subrange(from as int, i as int).push(t@[i as int]));
        i = i + 1;
    }
    assert(t@.subrange(from as int, t@.len() as int) =~= t@.skip(from as int));
    r
}

/// Applies one trimmed line; `None` where std would panic on it.
fn ihex_apply_line(upper: &mut u32, memory: &mut FlashMemory, t: &[char], line_no: usize) -> (r: Option<Result<bool, FlashParseError>>)
    requires
        old(memory).wf(),
        4 * t@.len() <= usize::MAX,
    ensures
        final(memory).wf(),
        match ihex_line(*old(upper), old(memory)@, t@, line_no as nat) {
            None => r is None,
            Some(Ok((u2, im2, done))) => r == Some(Ok::<bool, FlashParseError>(done)) && *final(upper) == u2 && final(memory)@ == im2,
            Some(Err(f)) => r matches Some(Err(e)) && ihex_fault_is(e, f),
        },
{
    if t.len() == 0 {
        return Some(Ok(false));
    }
    if t[0] != ':' {
        return Some(Err(ihex_syntax(line_no, "record must start with ':'")));
    }
    let p = tail_chars(t, 1);
    proof {
        assert(p@ =~= t@.drop_first());
    }
    let size = utf8_size_of(p.as_slice());
    if size < 10 || size % 2 != 0 {
        return Some(Err(ihex_syntax(line_no, "record has invalid hex length")));
    }
    match decode_hex_bytes(p.as_slice()) {
        None => None,
        Some(Err(m)) => Some(Err(FlashParseError::InvalidIntelHex { line: line_no, message: m })),
        Some(Ok(bytes)) => {
            proof {
                lemma_hex_pairs_len(p@);
            }
            Some(ihex_apply_record(upper, memory, bytes.as_slice(), line_no))
        },
    }
}

/// Reads an Intel HEX text into the runs of the image it describes; `None`
/// where std would panic on it, slicing inside a character, or for a text
/// too long to index.
pub fn parse_intel_hex_checked(content: &str) -> (r: Option<Result<Vec<ResolvedFlashRegion>, FlashParseError>>)
    ensures
        r is Some <==> (ihex_image(content@) is Some && 4 * content@.len() <= usize::MAX),
        r matches Some(res) ==> match ihex_image(content@).unwrap() {
            Ok(image) => res matches Ok(regions) && regions_describe(regions@, image),
            Err(f) => res matches Err(e) && ihex_fault_is(e, f),
        },
{
    let n = crate::text::str_chars(content).len();
    if n > usize::MAX / 4 {
        return None;
    }
    let lines = split_lines(content);
    let ghost ls = lines_of(content@);
    let mut upper: u32 = 0;
    let mut memory = FlashMemory::new();
    let mut j: usize = 0;
    while j < lines.len()
        invariant
            lines@.len() == ls.len(),
            forall|i: int| 0 <= i < lines@.len() ==> #[trigger] lines@[i]@ == ls[i],
            ls == lines_of(content@),
            4 * content@.len() <= usize::MAX,
            j <= ls.len(),
            memory.wf(),
            ihex_image(content@) == ihex_from(ls, j as int, upper, memory@),
        decreases lines.len() - j,
    {
        proof {
            lemma_line_len(content@, j as int);
        }
        let t = trim_chars(lines[j].as_slice());
        proof {
            assert(lines@[j as int]@ == ls[j as int]);
            assert(t@.len() <= ls[j as int].len()) by {
                lemma_trim_len(ls[j as int]);
            }
            assert(t@ == trim(ls[j as int]));
            assert(((j + 1) as nat) == (j as int + 1) as nat);
        }
        match ihex_apply_line(&mut upper, &mut memory, t.as_slice(), j + 1) {
            None => {
                return None;
            },
            Some(Err(e)) => {
                return Some(Err(e));
            },
            Some(Ok(done)) => {
                if done {
                    return Some(Ok(memory.into_regions()));
                }
            },
        }
        j = j + 1;
    }
    Some(Ok(memory.into_regions()))
}

/// Reads an Intel HEX text into the runs of the image it describes.
pub fn parse_intel_hex(content: &str) -> (r: Result<Vec<ResolvedFlashRegion>, FlashParseError>)
    requires
        4 * content@.len() <= usize::MAX,
        ihex_image(content@) is Some,
    ensures
        match ihex_image(content@).unwrap() {
            Ok(image) => r matches Ok(regions) && regions_describe(regions@, image),
            Err(f) => r matches Err(e) && ihex_fault_is(e, f),
        },
{
    match parse_intel_hex_checked(content) {
        Some(res) => res,
        None => vstd::pervasive::unreached(),
    }
}

pub proof fn lemma_line_len(s: Seq<char>, j: int)
    requires
        0 <= j < lines_of(s).len(),
    ensures
        lines_of(s)[j].len() <= s.len(),
    decreases s.len(),
{
    if s.len() > 0 {
        let l = lines_of(s.drop_last());
        crate::load::records::lemma_lines_nonempty(s.drop_last());
        if j < l.len() {
            lemma_line_len(s.drop_last(), j);
        }
        if j == l.len() - 1 {
            lemma_line_len(s.drop_last(), j);
        }
    }
}

pub proof fn lemma_trim_len(s: Seq<char>)
    ensures
        trim(s).len() <= s.len(),
{
    lemma_trim_start_len(s);
    lemma_trim_end_len(crate::text::trim_start(s));
}

proof fn lemma_trim_start_len(s: Seq<char>)
    ensures
        crate::text::trim_start(s).len() <= s.len(),
    decreases s.len(),
{
    if s.len() > 0 && crate::text::is_ws(s[0]) {
        lemma_trim_start_len(s.drop_first());
    }
}

proof fn lemma_trim_end_len(s: Seq<char>)
    ensures
        crate::text::trim_end(s).len() <= s.len(),
    decreases s.len(),
{
    if s.len() > 0 && crate::text::is_ws(s.last()) {
        lemma_trim_end_len(s.drop_last());
    }
}

proof fn lemma_ihex_from_ascii(lines: Seq<Seq<char>>, j: int, upper: u32, image: Map<u32, u8>)
    requires
        forall|k: int| 0 <= k < lines.len() ==> crate::load::records::all_ascii(#[trigger] lines[k]),
    ensures
        ihex_from(lines, j, upper, image) is Some,
    decreases lines.len() - j,
{
    if 0 <= j < lines.len() {
        let t = trim(lines[j]);
        crate::load::records::lemma_trim_ascii(lines[j]);
        if t.len() > 0 && t[0] == ':' {
            crate::load::records::lemma_skip_ascii(t, 1);
            assert(t.drop_first() =~= t.skip(1));
            crate::load::records::lemma_hex_decode_ascii(t.drop_first());
        }
        match ihex_line(upper, image, t, (j + 1) as nat) {
            Some(Ok((u2, im2, done))) => {
                if !done {
                    lemma_ihex_from_ascii(lines, j + 1, u2, im2);
                }
            },
            _ => {},
        }
    }
}

/// An ASCII text never makes the Intel HEX reader slice inside a character,
/// so it always has an outcome.
pub proof fn lemma_ascii_ihex_image(content: Seq<char>)
    requires
        crate::load::records::all_ascii(content),
    ensures
        ihex_image(content) is Some,
{
    crate::load::records::lemma_lines_ascii(content);
    lemma_ihex_from_ascii(lines_of(content), 0, 0, Map::empty());
}

} // verus!
