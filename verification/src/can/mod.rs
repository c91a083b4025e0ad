//! CAN frames as the runtime exchanges them: payload hex text and frame checks.
use vstd::prelude::*;
use vstd::utf8::{encode_utf8, is_ascii_chars, is_ascii_chars_encode_utf8};
use crate::sim::types::{
    SimCanFrame, CAN_FLAG_BRS, CAN_FLAG_ESI, CAN_FLAG_EXTENDED, CAN_FLAG_FD, CAN_FLAG_RESERVED_MASK, CAN_FLAG_RTR,
};
use crate::text::{
    dec, hex_byte_upper, hex_upper, hex_upper_char, is_whitespace, unsigned_digits, all_digits, digits_value, digit_value, is_ws, parse_unsigned, parse_unsigned_chars, push_chars, push_dec,
    push_hex_upper, push_str, str_chars, string_push,
};

pub mod dbc;
pub mod overlay;
pub mod fd;

verus! {

/// `raw` without whitespace and underscores.
pub open spec fn hex_compact(raw: Seq<char>) -> Seq<char>
    decreases raw.len(),
{
    if raw.len() == 0 {
        Seq::empty()
    } else if is_ws(raw.last()) || raw.last() == '_' {
        hex_compact(raw.drop_last())
    } else {
        hex_compact(raw.drop_last()).push(raw.last())
    }
}

/// The prefix of the payload error messages.
pub open spec fn payload_error(raw: Seq<char>) -> Seq<char> {
    "invalid CAN payload hex '"@ + raw + "': "@
}

/// The bytes written by consecutive byte pairs of `b`, each pair read as two
/// characters in base 16; the message names the first pair that is no hex byte.
pub open spec fn byte_pairs(raw: Seq<char>, b: Seq<u8>) -> Result<Seq<u8>, Seq<char>>
    decreases b.len(),
{
    if b.len() < 2 {
        Ok(Seq::empty())
    } else {
        let pair = seq![(b[0] as u32) as char, (b[1] as u32) as char];
        match parse_unsigned(pair, 16, 255) {
            Some(v) => match byte_pairs(raw, b.skip(2)) {
                Ok(rest) => Ok(seq![v as u8] + rest),
                Err(m) => Err(m),
            },
            None => Err(payload_error(raw) + "bad byte '"@ + pair + "'"@),
        }
    }
}

/// What a payload hex text stands for: whitespace and underscores are
/// ignored, then an even number of UTF-8 bytes, at most 64 pairs, each a hex byte.
pub open spec fn payload_of_hex(raw: Seq<char>) -> Result<Seq<u8>, Seq<char>> {
    let b = encode_utf8(hex_compact(raw));
    if b.len() % 2 != 0 {
        Err(payload_error(raw) + "expected an even number of hex characters"@)
    } else if b.len() / 2 > 64 {
        Err(payload_error(raw) + "payload exceeds 64 bytes"@)
    } else {
        byte_pairs(raw, b)
    }
}

fn payload_error_message(raw: &str, tail: &str) -> (m: String)
    ensures
        m@ == payload_error(raw@) + tail@,
{
    let mut m = String::new();
    push_str(&mut m, "invalid CAN payload hex '");
    push_str(&mut m, raw);
    push_str(&mut m, "': ");
    push_str(&mut m, tail);
    assert(m@ =~= payload_error(raw@) + tail@);
    m
}

/// Reads a CAN payload written in hex.
pub fn parse_data_hex(raw: &str) -> (r: Result<Vec<u8>, String>)
    ensures
        match payload_of_hex(raw@) {
            Ok(p) => r matches Ok(v) && v@ == p,
            Err(m) => r matches Err(e) && e@ == m,
        },
{
    let cs = str_chars(raw);
    let mut compact = String::new();
    let mut i: usize = 0;
    while i < cs.len()
        invariant
            cs@ == raw@,
            i <= cs@.len(),
            compact@ == hex_compact(cs@.take(i as int)),
        decreases cs.len() - i,
    {
        let c = cs[i];
        proof {
            assert(cs@.take(i + 1).drop_last() =~= cs@.take(i as int));
        }
        if !is_whitespace(c) && c != '_' {
            string_push(&mut compact, c);
        }
        i = i + 1;
    }
    proof {
        assert(cs@.take(cs@.len() as int) =~= cs@);
    }
    let bytes = compact.as_str().as_bytes();
    if bytes.len() % 2 != 0 {
        return Err(payload_error_message(raw, "expected an even number of hex characters"));
    }
    if bytes.len() / 2 > 64 {
        return Err(payload_error_message(raw, "payload exceeds 64 bytes"));
    }
    let mut payload: Vec<u8> = Vec::new();
    let mut idx: usize = 0;
    proof {
        assert(bytes@.skip(0) =~= bytes@);
        if let Ok(rest) = byte_pairs(raw@, bytes@) {
            assert(Seq::<u8>::empty() + rest =~= rest);
        }
    }
    while idx < bytes.len()
        invariant
            bytes@ == encode_utf8(hex_compact(raw@)),
            bytes@.len() % 2 == 0,
            bytes@.len() / 2 <= 64,
            idx <= bytes@.len(),
            idx % 2 == 0,
            byte_pairs(raw@, bytes@) == match byte_pairs(raw@, bytes@.skip(idx as int)) {
                Ok(rest) => Ok(payload@ + rest),
                Err(m) => Err::<Seq<u8>, Seq<char>>(m),
            },
        decreases bytes.len() - idx,
    {
        let ghost rest = bytes@.skip(idx as int);
        let c0 = bytes[idx] as char;
        let c1 = bytes[idx + 1] as char;
        let pair: [char; 2] = [c0, c1];
        proof {
            assert(rest.len() >= 2);
            assert(rest[0] == bytes@[idx as int] && rest[1] == bytes@[idx + 1]);
            assert(pair@ =~= seq![(rest[0] as u32) as char, (rest[1] as u32) as char]);
        }
        match parse_unsigned_chars(pair.as_slice(), 16, 255) {
            Some(v) => {
                proof {
                    assert(rest.skip(2) =~= bytes@.skip(idx + 2));
                    if let Ok(r2) = byte_pairs(raw@, bytes@.skip(idx + 2)) {
                        assert(payload@ + (seq![v as u8] + r2) =~= payload@.push(v as u8) + r2);
                    }
                }
                payload.push(v as u8);
                idx = idx + 2;
            },
            None => {
                let mut m = payload_error_message(raw, "bad byte '");
                push_chars(&mut m, pair.as_slice());
                push_str(&mut m, "'");
                proof {
                    assert(m@ =~= payload_error(raw@) + "bad byte '"@ + pair@ + "'"@);
                }
                return Err(m);
            },
        }
    }
    proof {
        assert(bytes@.skip(bytes@.len() as int) =~= Seq::<u8>::empty());
        assert(payload@ + Seq::<u8>::empty() =~= payload@);
    }
    Ok(payload)
}

/// Upper-case hex digits of `n`, without leading zeros.
pub open spec fn hex_digits(n: nat) -> Seq<char>
    decreases n,
{
    if n < 16 {
        seq![hex_upper_char(n)]
    } else {
        hex_digits(n / 16).push(hex_upper_char(n % 16))
    }
}

proof fn lemma_hex_char_value(d: nat)
    requires
        d < 16,
    ensures
        digit_value(hex_upper_char(d), 16) == Some(d),
        hex_upper_char(d) != '+',
{
    if d < 10 {
        assert(((d + 48) as u8) as char as u32 == d + 48);
    } else {
        assert(((d - 10 + 65) as u8) as char as u32 == d - 10 + 65);
    }
}

pub proof fn lemma_hex_digits_value(n: nat)
    ensures
        hex_digits(n).len() > 0,
        hex_digits(n)[0] != '+',
        all_digits(hex_digits(n), 16),
        digits_value(hex_digits(n), 16) == n,
    decreases n,
{
    if n < 16 {
        lemma_hex_char_value(n);
        assert(seq![hex_upper_char(n)].drop_last() =~= Seq::<char>::empty());
        assert(digits_value(Seq::<char>::empty(), 16) == 0);
    } else {
        lemma_hex_digits_value(n / 16);
        lemma_hex_char_value(n % 16);
        let s = hex_digits(n);
        assert(s.drop_last() =~= hex_digits(n / 16));
        assert(s[0] == hex_digits(n / 16)[0]);
        assert forall|i: int| 0 <= i < s.len() implies #[trigger] digit_value(s[i], 16) is Some by {
            if i < s.len() - 1 {
                assert(s[i] == hex_digits(n / 16)[i]);
            }
        }
    }
}

/// A number written in upper-case hex, as identifiers are shown, reads back
/// as itself wherever it fits.
pub proof fn lemma_hex_digits_parse_back(n: nat, max: nat)
    requires
        n <= max,
    ensures
        parse_unsigned(hex_digits(n), 16, max) == Some(n),
{
    lemma_hex_digits_value(n);
}

/// Appends `n` in upper-case hex without leading zeros.
pub fn push_hex_digits(s: &mut String, n: u64)
    ensures
        final(s)@ == old(s)@ + hex_digits(n as nat),
    decreases n,
{
    if n < 16 {
        string_push(s, crate::text::hex_upper_of(n as u8));
    } else {
        push_hex_digits(s, n / 16);
        string_push(s, crate::text::hex_upper_of((n % 16) as u8));
        assert(old(s)@ + hex_digits((n / 16) as nat) + seq![hex_upper_char((n % 16) as nat)] =~= old(s)@
            + hex_digits(n as nat));
    }
}

/// The payload lengths a CAN FD frame may have.
pub open spec fn fd_length_ok(len: u8) -> bool {
    len <= 8 || len == 12 || len == 16 || len == 20 || len == 24 || len == 32 || len == 48 || len == 64
}

/// Why a frame cannot go on a bus, if it cannot.
pub open spec fn frame_fault(bus: Seq<char>, fd_capable: bool, frame: SimCanFrame) -> Option<Seq<char>> {
    let fd_requested = frame.flags & CAN_FLAG_FD != 0 || frame.flags & (CAN_FLAG_BRS | CAN_FLAG_ESI) != 0;
    if frame.flags & CAN_FLAG_RESERVED_MASK != 0 {
        Some("CAN frame for bus '"@ + bus + "' has reserved flag bits set"@)
    } else if frame.flags & CAN_FLAG_EXTENDED != 0 && frame.arb_id > 0x1FFF_FFFF {
        Some("CAN frame for bus '"@ + bus + "' has invalid extended arbitration id 0x"@ + hex_digits(frame.arb_id as nat))
    } else if frame.flags & CAN_FLAG_EXTENDED == 0 && frame.arb_id > 0x7FF {
        Some("CAN frame for bus '"@ + bus + "' has invalid standard arbitration id 0x"@ + hex_digits(frame.arb_id as nat))
    } else if frame.len > 64 {
        Some("CAN frame for bus '"@ + bus + "' has invalid payload length "@ + dec(frame.len as nat))
    } else if fd_requested && !fd_capable {
        Some("CAN bus '"@ + bus + "' is classic-only and cannot carry FD frames"@)
    } else if fd_requested && !fd_length_ok(frame.len) {
        Some("CAN FD frame for bus '"@ + bus + "' has invalid length "@ + dec(frame.len as nat)
            + "; valid lengths are 0-8,12,16,20,24,32,48,64"@)
    } else if fd_requested && frame.flags & CAN_FLAG_RTR != 0 {
        Some("CAN FD frame for bus '"@ + bus + "' cannot set RTR flag"@)
    } else if !fd_requested && frame.len > 8 {
        Some("classic CAN frame for bus '"@ + bus + "' has invalid length "@ + dec(frame.len as nat))
    } else {
        None
    }
}

/// Which frames a bus takes, once no reserved flag bit is set: an extended
/// identifier of at most 29 bits or a standard one of at most 11; an FD
/// frame (FD, BRS or ESI flag) only on an FD-capable bus, only with a
/// payload length that has a CAN FD data length code, and never as a remote
/// request; a classic frame with at most 8 payload bytes.
pub proof fn lemma_frame_acceptance(bus: Seq<char>, fd_capable: bool, frame: SimCanFrame)
    requires
        frame.flags & CAN_FLAG_RESERVED_MASK == 0,
    ensures
        frame_fault(bus, fd_capable, frame) is None <==> {
            &&& if frame.flags & CAN_FLAG_EXTENDED != 0 { frame.arb_id < 0x2000_0000 } else { frame.arb_id < 0x800 }
            &&& if frame.flags & (CAN_FLAG_FD | CAN_FLAG_BRS | CAN_FLAG_ESI) != 0 {
                fd_capable && crate::can::fd::len_dlc(frame.len) is Some && frame.flags & CAN_FLAG_RTR == 0
            } else {
                frame.len <= 8
            }
        },
{
    let f = frame.flags;
    assert((f & 2 != 0 || f & (4u8 | 8u8) != 0) == (f & (2u8 | 4u8 | 8u8) != 0)) by (bit_vector);
}

/// Checks that a frame can go on a bus: flags, identifier range and length.
pub fn validate_frame(bus_name: &str, fd_capable: bool, frame: &SimCanFrame) -> (r: Result<(), String>)
    ensures
        match frame_fault(bus_name@, fd_capable, *frame) {
            None => r is Ok,
            Some(m) => r matches Err(e) && e@ == m,
        },
{
    let mut m = String::new();
    if (frame.flags & CAN_FLAG_RESERVED_MASK) != 0 {
        push_str(&mut m, "CAN frame for bus '");
        push_str(&mut m, bus_name);
        push_str(&mut m, "' has reserved flag bits set");
        return Err(m);
    }
    if (frame.flags & CAN_FLAG_EXTENDED) != 0 {
        if frame.arb_id > 0x1FFF_FFFF {
            push_str(&mut m, "CAN frame for bus '");
            push_str(&mut m, bus_name);
            push_str(&mut m, "' has invalid extended arbitration id 0x");
            push_hex_digits(&mut m, frame.arb_id as u64);
            return Err(m);
        }
    } else if frame.arb_id > 0x7FF {
        push_str(&mut m, "CAN frame for bus '");
        push_str(&mut m, bus_name);
        push_str(&mut m, "' has invalid standard arbitration id 0x");
        push_hex_digits(&mut m, frame.arb_id as u64);
        return Err(m);
    }
    if frame.len > 64 {
        push_str(&mut m, "CAN frame for bus '");
        push_str(&mut m, bus_name);
        push_str(&mut m, "' has invalid payload length ");
        push_dec(&mut m, frame.len as u64);
        return Err(m);
    }
    let fd_requested = (frame.flags & CAN_FLAG_FD) != 0 || (frame.flags & (CAN_FLAG_BRS | CAN_FLAG_ESI)) != 0;
    if fd_requested {
        if !fd_capable {
            push_str(&mut m, "CAN bus '");
            push_str(&mut m, bus_name);
            push_str(&mut m, "' is classic-only and cannot carry FD frames");
            return Err(m);
        }
        let len = frame.len;
        if !(len <= 8 || len == 12 || len == 16 || len == 20 || len == 24 || len == 32 || len == 48 || len == 64) {
            push_str(&mut m, "CAN FD frame for bus '");
            push_str(&mut m, bus_name);
            push_str(&mut m, "' has invalid length ");
            push_dec(&mut m, frame.len as u64);
            push_str(&mut m, "; valid lengths are 0-8,12,16,20,24,32,48,64");
            return Err(m);
        }
        if (frame.flags & CAN_FLAG_RTR) != 0 {
            push_str(&mut m, "CAN FD frame for bus '");
            push_str(&mut m, bus_name);
            push_str(&mut m, "' cannot set RTR flag");
            return Err(m);
        }
    } else if frame.len > 8 {
        push_str(&mut m, "classic CAN frame for bus '");
        push_str(&mut m, bus_name);
        push_str(&mut m, "' has invalid length ");
        push_dec(&mut m, frame.len as u64);
        return Err(m);
    }
    Ok(())
}

/// A frame as reported to clients: its payload as upper-case hex.
#[derive(Clone, Debug, PartialEq, Eq)]
pub struct CanFrameData {
    pub arb_id: u32,
    pub len: u8,
    pub flags: u8,
    pub data_hex: String,
}

/// The report of a frame.
pub fn frame_data(frame: &SimCanFrame) -> (r: CanFrameData)
    ensures
        r.arb_id == frame.arb_id,
        r.len == frame.len,
        r.flags == frame.flags,
        r.data_hex@ == hex_upper(frame.payload_spec()),
{
    let mut data_hex = String::new();
    push_hex_upper(&mut data_hex, frame.payload());
    assert(data_hex@ =~= hex_upper(frame.payload_spec()));
    CanFrameData { arb_id: frame.arb_id, len: frame.len, flags: frame.flags, data_hex }
}

proof fn lemma_hex_upper_front(p: Seq<u8>)
    requires
        p.len() > 0,
    ensures
        hex_upper(p) == hex_byte_upper(p[0]) + hex_upper(p.drop_first()),
    decreases p.len(),
{
    if p.len() == 1 {
        assert(p.drop_last() =~= Seq::<u8>::empty());
        assert(p.drop_first() =~= Seq::<u8>::empty());
        assert(hex_upper(p) =~= hex_byte_upper(p[0]) + hex_upper(p.drop_first()));
    } else {
        lemma_hex_upper_front(p.drop_last());
        assert(p.drop_last().drop_first() =~= p.drop_first().drop_last());
        assert(p.drop_first().last() == p.last());
        assert(hex_upper(p) =~= hex_byte_upper(p[0]) + hex_upper(p.drop_first()));
    }
}

/// A character of upper-case hex text.
pub open spec fn upper_hex_char(c: char) -> bool {
    ('0' <= c <= '9') || ('A' <= c <= 'F')
}

proof fn lemma_hex_upper_chars(p: Seq<u8>)
    ensures
        hex_upper(p).len() == 2 * p.len(),
        forall|i: int| 0 <= i < hex_upper(p).len() ==> #[trigger] upper_hex_char(hex_upper(p)[i]),
    decreases p.len(),
{
    if p.len() > 0 {
        lemma_hex_upper_chars(p.drop_last());
        let b = p.last();
        assert(upper_hex_char(hex_upper_char((b / 16) as nat)));
        assert(upper_hex_char(hex_upper_char((b % 16) as nat)));
        let h = hex_upper(p);
        assert forall|i: int| 0 <= i < h.len() implies #[trigger] upper_hex_char(h[i]) by {
            if i < 2 * p.drop_last().len() {
                assert(h[i] == hex_upper(p.drop_last())[i]);
            }
        }
    }
}

proof fn lemma_upper_hex_ascii(s: Seq<char>)
    requires
        forall|i: int| 0 <= i < s.len() ==> #[trigger] upper_hex_char(s[i]),
    ensures
        is_ascii_chars(s),
{
    assert forall|i: int| 0 <= i < s.len() implies '\0' <= #[trigger] s[i] <= '\u{7f}' by {
        assert(upper_hex_char(s[i]));
    }
}

proof fn lemma_compact_keeps(s: Seq<char>)
    requires
        forall|i: int| 0 <= i < s.len() ==> #[trigger] upper_hex_char(s[i]),
    ensures
        hex_compact(s) == s,
    decreases s.len(),
{
    if s.len() > 0 {
        lemma_compact_keeps(s.drop_last());
        assert(upper_hex_char(s.last()));
        assert(hex_compact(s) =~= s);
    }
}

proof fn lemma_hex_digit_value(d: nat)
    requires
        d < 16,
    ensures
        digit_value(hex_upper_char(d), 16) == Some(d),
{
}

proof fn lemma_pair_value(b: u8)
    ensures
        parse_unsigned(hex_byte_upper(b), 16, 255) == Some(b as nat),
{
    let pair = hex_byte_upper(b);
    lemma_hex_digit_value((b / 16) as nat);
    lemma_hex_digit_value((b % 16) as nat);
    assert(unsigned_digits(pair) == pair);
    assert(pair.drop_last() =~= seq![hex_upper_char((b / 16) as nat)]);
    assert(pair.drop_last().drop_last() =~= Seq::<char>::empty());
    assert(digits_value(Seq::<char>::empty(), 16) == 0);
    assert(digits_value(pair.drop_last(), 16) == (b / 16) as nat);
    assert(pair.last() == hex_upper_char((b % 16) as nat));
    assert(digits_value(pair, 16) == (b / 16) * 16 + b % 16);
}

proof fn lemma_pairs_of_hex(raw: Seq<char>, p: Seq<u8>)
    ensures
        byte_pairs(raw, encode_utf8(hex_upper(p))) == Ok::<Seq<u8>, Seq<char>>(p),
    decreases p.len(),
{
    let h = hex_upper(p);
    lemma_hex_upper_chars(p);
    lemma_upper_hex_ascii(h);
    is_ascii_chars_encode_utf8(h);
    let e = encode_utf8(h);
    if p.len() == 0 {
        assert(e.len() == 0);
        assert(p =~= Seq::<u8>::empty());
    } else {
        lemma_hex_upper_front(p);
        let rest = p.drop_first();
        let hr = hex_upper(rest);
        lemma_hex_upper_chars(rest);
        lemma_upper_hex_ascii(hr);
        is_ascii_chars_encode_utf8(hr);
        lemma_pairs_of_hex(raw, rest);
        let pair = seq![(e[0] as u32) as char, (e[1] as u32) as char];
        assert(e[0] == h[0] as u8 && e[1] == h[1] as u8);
        assert(h[0] == hex_byte_upper(p[0])[0]);
        assert(h[1] == hex_byte_upper(p[0])[1]);
        assert(pair =~= hex_byte_upper(p[0]));
        lemma_pair_value(p[0]);
        assert(e.skip(2) =~= encode_utf8(hr)) by {
            assert forall|i: int| 0 <= i < e.skip(2).len() implies e.skip(2)[i] == encode_utf8(hr)[i] by {
                assert(h[i + 2] == hr[i]);
            }
        }
        assert(seq![p[0]] + rest =~= p);
    }
}

/// The hex text of a payload of at most 64 bytes reads back as that payload.
pub proof fn lemma_payload_hex_roundtrip(p: Seq<u8>)
    requires
        p.len() <= 64,
    ensures
        payload_of_hex(hex_upper(p)) == Ok::<Seq<u8>, Seq<char>>(p),
{
    let h = hex_upper(p);
    lemma_hex_upper_chars(p);
    lemma_compact_keeps(h);
    lemma_upper_hex_ascii(h);
    is_ascii_chars_encode_utf8(h);
    lemma_pairs_of_hex(h, p);
}


/// Byte pairs give at most one byte per two.
proof fn lemma_byte_pairs_len(raw: Seq<char>, b: Seq<u8>)
    ensures
        byte_pairs(raw, b) matches Ok(v) ==> v.len() <= b.len() / 2,
    decreases b.len(),
{
    if b.len() >= 2 {
        lemma_byte_pairs_len(raw, b.skip(2));
    }
}

/// A payload read from hex holds at most 64 bytes.
pub proof fn lemma_payload_at_most_64(raw: Seq<char>)
    ensures
        payload_of_hex(raw) matches Ok(p) ==> p.len() <= 64,
{
    lemma_byte_pairs_len(raw, encode_utf8(hex_compact(raw)));
}


/// The 64 data bytes of a frame carrying `payload`, zero-filled after it.
pub open spec fn padded_data(payload: Seq<u8>) -> Seq<u8> {
    payload + Seq::new((64 - payload.len()) as nat, |i: int| 0u8)
}

/// The frame carrying `payload`, at most 64 bytes.
pub fn frame_with_payload(arb_id: u32, payload: &[u8], flags: u8) -> (f: SimCanFrame)
    requires
        payload@.len() <= 64,
    ensures
        f.arb_id == arb_id,
        f.flags == flags,
        f.len == payload@.len(),
        f.data@ == padded_data(payload@),
{
    let mut data = [0u8; 64];
    let mut k: usize = 0;
    while k < payload.len()
        invariant
            payload@.len() <= 64,
            k <= payload@.len(),
            forall|x: int| 0 <= x < k ==> data@[x] == payload@[x],
            forall|x: int| k <= x < 64 ==> data@[x] == 0u8,
        decreases payload@.len() - k,
    {
        data.set(k, payload[k]);
        k = k + 1;
    }
    let frame = SimCanFrame { arb_id, len: payload.len() as u8, flags, data };
    assert(frame.data@ =~= padded_data(payload@));
    frame
}

} // verus!
