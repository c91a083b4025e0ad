//! Bit-level layout of DBC signals inside CAN frame payloads.
use vstd::prelude::*;
use vstd::arithmetic::power2::pow2;
use crate::sim::types::{SimCanFrame, CAN_FLAG_EXTENDED};
use crate::text::{dec, dec_int, push_dec, push_dec_i64, push_str};
use crate::sim::types::CAN_FLAG_FD;

verus! {

/// Bit `pos` of a payload: bit `pos % 8` of byte `pos / 8`.
pub open spec fn data_bit(data: Seq<u8>, pos: int) -> u8 {
    (data[pos / 8] >> ((pos % 8) as u8)) & 1u8
}

/// The message for a bit index that does not address the 64-byte payload.
pub open spec fn bit_index_error(index: u64) -> Seq<char> {
    if index / 8 > usize::MAX {
        "bit index overflow"@
    } else {
        "bit index "@ + dec(index as nat) + " is out of bounds"@
    }
}

fn bit_index_error_message(index: u64) -> (m: String)
    ensures
        m@ == bit_index_error(index),
{
    let mut m = String::new();
    if index / 8 > usize::MAX as u64 {
        push_str(&mut m, "bit index overflow");
    } else {
        push_str(&mut m, "bit index ");
        push_dec(&mut m, index);
        push_str(&mut m, " is out of bounds");
    }
    m
}

pub fn get_bit(data: &[u8; 64], index: u64) -> (r: Result<u8, String>)
    ensures
        r is Ok <==> index < 512,
        r matches Ok(b) ==> b == data_bit(data@, index as int) && b <= 1,
        r matches Err(m) ==> m@ == bit_index_error(index),
{
    let q = index / 8;
    if q > usize::MAX as u64 {
        return Err(bit_index_error_message(index));
    }
    let byte_index = q as usize;
    if byte_index >= 64 {
        return Err(bit_index_error_message(index));
    }
    let bit_index = (index % 8) as u8;
    let byte = data[byte_index];
    assert((byte >> bit_index) & 1u8 <= 1) by (bit_vector);
    Ok((byte >> bit_index) & 1)
}

/// The byte `x` with bit `i` set to `b != 0`.
pub open spec fn with_bit(x: u8, i: u8, b: u8) -> u8 {
    if b == 0 { x & !(1u8 << i) } else { x | (1u8 << i) }
}

pub fn set_bit(data: &mut [u8; 64], index: u64, bit: u8) -> (r: Result<(), String>)
    ensures
        r is Ok <==> index < 512,
        r is Ok ==> final(data)@ == old(data)@.update(
            (index / 8) as int,
            with_bit(old(data)@[(index / 8) as int], (index % 8) as u8, bit),
        ),
        r matches Err(m) ==> m@ == bit_index_error(index) && final(data)@ == old(data)@,
{
    let q = index / 8;
    if q > usize::MAX as u64 {
        return Err(bit_index_error_message(index));
    }
    let byte_index = q as usize;
    if byte_index >= 64 {
        return Err(bit_index_error_message(index));
    }
    let mask: u8 = 1u8 << ((index % 8) as u8);
    if bit == 0 {
        data[byte_index] = data[byte_index] & !mask;
    } else {
        data[byte_index] = data[byte_index] | mask;
    }
    Ok(())
}

/// Reading back a bit after `with_bit`.
pub proof fn lemma_with_bit(x: u8, i: u8, j: u8, b: u8)
    requires
        i < 8,
        j < 8,
    ensures
        (with_bit(x, i, b) >> j) & 1 == if i == j { if b == 0 { 0u8 } else { 1u8 } } else { (x >> j) & 1 },
{
    if b == 0 {
        assert((x & !(1u8 << i)) >> j & 1 == if i == j { 0u8 } else { (x >> j) & 1 }) by (bit_vector)
            requires i < 8, j < 8;
    } else {
        assert((x | (1u8 << i)) >> j & 1 == if i == j { 1u8 } else { (x >> j) & 1 }) by (bit_vector)
            requires i < 8, j < 8;
    }
}

/// Setting one bit of a payload changes that bit alone.
pub proof fn lemma_set_bit_effect(data: Seq<u8>, index: int, b: u8, pos: int)
    requires
        data.len() == 64,
        0 <= index < 512,
        0 <= pos < 512,
    ensures
        data_bit(data.update(index / 8, with_bit(data[index / 8], (index % 8) as u8, b)), pos)
            == if pos == index { if b == 0 { 0u8 } else { 1u8 } } else { data_bit(data, pos) },
{
    let nd = data.update(index / 8, with_bit(data[index / 8], (index % 8) as u8, b));
    if pos / 8 == index / 8 {
        lemma_with_bit(data[index / 8], (index % 8) as u8, (pos % 8) as u8, b);
    } else {
        assert(nd[pos / 8] == data[pos / 8]);
    }
}

pub fn next_motorola_bit(current: i64) -> (r: i64)
    requires
        current % 8 == 0 ==> current <= i64::MAX - 15,
        current % 8 != 0 ==> current > i64::MIN,
    ensures
        r == if current % 8 == 0 { current + 15 } else { current - 1 },
{
    if current % 8 == 0 {
        current + 15
    } else {
        current - 1
    }
}

pub open spec fn frame_key_spec(arb_id: u32, extended: bool) -> u32 {
    if extended { arb_id | 0x8000_0000u32 } else { arb_id }
}

/// Frame keys tell frames apart: two identifiers in range (29 bits for
/// extended frames, 11 for standard ones) get the same key exactly when they
/// are the same identifier of the same kind; a standard key is the id itself.
pub proof fn lemma_frame_key_distinct(a: u32, ea: bool, b: u32, eb: bool)
    requires
        a < (if ea { 0x2000_0000u32 } else { 0x800u32 }),
        b < (if eb { 0x2000_0000u32 } else { 0x800u32 }),
    ensures
        frame_key_spec(a, ea) == frame_key_spec(b, eb) <==> (a == b && ea == eb),
        !ea ==> frame_key_spec(a, ea) == a,
{
    assert((a | 0x8000_0000u32) & 0x7fff_ffffu32 == a) by (bit_vector)
        requires a < 0x2000_0000u32;
    assert((b | 0x8000_0000u32) & 0x7fff_ffffu32 == b) by (bit_vector)
        requires b < 0x2000_0000u32;
    assert((a | 0x8000_0000u32) >= 0x8000_0000u32) by (bit_vector);
    assert((b | 0x8000_0000u32) >= 0x8000_0000u32) by (bit_vector);
}

pub fn frame_key(arb_id: u32, extended: bool) -> (r: u32)
    ensures
        r == frame_key_spec(arb_id, extended),
{
    if extended { arb_id | 0x8000_0000u32 } else { arb_id }
}

pub fn frame_key_from_frame(frame: &SimCanFrame) -> (r: u32)
    ensures
        r == frame_key_spec(frame.arb_id, frame.flags & CAN_FLAG_EXTENDED != 0),
{
    frame_key(frame.arb_id, (frame.flags & CAN_FLAG_EXTENDED) != 0)
}


/// Byte order of a DBC signal.
#[derive(Clone, Copy, Debug)]
pub enum ByteOrder {
    LittleEndian,
    BigEndian,
}

/// Signedness of a DBC signal's raw value.
#[derive(Clone, Copy, Debug)]
pub enum ValueType {
    Signed,
    Unsigned,
}

/// The position of bit `idx` in "Motorola order": bits run from 7 down to 0
/// inside a byte, then continue at bit 7 of the next byte.
pub open spec fn motorola_rank(p: int) -> int {
    8 * (p / 8) + (7 - p % 8)
}

pub open spec fn motorola_next(p: int) -> int {
    if p % 8 == 0 { p + 15 } else { p - 1 }
}

pub open spec fn motorola_walk(start: int, k: nat) -> int
    decreases k,
{
    if k == 0 { start } else { motorola_next(motorola_walk(start, (k - 1) as nat)) }
}

/// Payload bit that holds the `k`-th bit visited by a signal.
pub open spec fn bit_pos(order: ByteOrder, start: int, k: nat) -> int {
    match order {
        ByteOrder::LittleEndian => start + k,
        ByteOrder::BigEndian => motorola_walk(start, k),
    }
}

/// Which bit of the raw value the `k`-th visited payload bit carries.
pub open spec fn raw_index(order: ByteOrder, size: nat, k: nat) -> nat {
    match order {
        ByteOrder::LittleEndian => k,
        ByteOrder::BigEndian => (size - 1 - k) as nat,
    }
}

/// Inverse of `bit_pos`: the visit number at which payload bit `p` is reached.
pub open spec fn pos_index(order: ByteOrder, start: int, p: int) -> int {
    match order {
        ByteOrder::LittleEndian => p - start,
        ByteOrder::BigEndian => motorola_rank(p) - motorola_rank(start),
    }
}

/// The first visited payload bit that lies outside the 64-byte payload.
pub open spec fn first_bad_bit(order: ByteOrder, start: int) -> int {
    if start >= 512 {
        start
    } else {
        match order {
            ByteOrder::LittleEndian => 512,
            ByteOrder::BigEndian => 519,
        }
    }
}

/// How many bits a signal starting at `start` can visit before leaving the payload.
pub open spec fn fit_count(order: ByteOrder, start: int) -> int {
    pos_index(order, start, first_bad_bit(order, start))
}

/// Every payload bit visited by a signal of `size` bits lies in the 64-byte payload.
pub open spec fn layout_fits(order: ByteOrder, start: int, size: int) -> bool {
    size <= fit_count(order, start)
}

/// Bit `j` of `x`.
pub open spec fn bit_of(x: u64, j: int) -> u64 {
    (x >> (j as u64)) & 1
}

/// The payload bit that carries bit `j` of a signal's raw value.
pub open spec fn raw_bit(data: Seq<u8>, order: ByteOrder, start: int, size: int, j: int) -> u8 {
    data_bit(data, bit_pos(order, start, raw_index(order, size as nat, j as nat)))
}

/// How many bits a write of `size` bits stores before it stops.
pub open spec fn written_count(order: ByteOrder, start: int, size: int) -> int {
    if layout_fits(order, start, size) { size } else { fit_count(order, start) }
}

/// `new` is `old` with the first `n` visited bits replaced by the matching bits of `raw`.
pub open spec fn bits_written(
    old: Seq<u8>,
    new: Seq<u8>,
    order: ByteOrder,
    start: int,
    size: int,
    n: int,
    raw: u64,
) -> bool {
    forall|p: int|
        0 <= p < 512 ==> #[trigger] data_bit(new, p) == if 0 <= pos_index(order, start, p) < n {
            bit_of(raw, raw_index(order, size as nat, pos_index(order, start, p) as nat) as int) as u8
        } else {
            data_bit(old, p)
        }
}

pub proof fn lemma_motorola_walk(start: int, k: nat)
    requires
        start >= 0,
    ensures
        motorola_walk(start, k) >= 0,
        motorola_rank(motorola_walk(start, k)) == motorola_rank(start) + k,
    decreases k,
{
    if k > 0 {
        lemma_motorola_walk(start, (k - 1) as nat);
    }
}

/// `pos_index` inverts `bit_pos`.
pub proof fn lemma_bit_pos(order: ByteOrder, start: int, k: nat, p: int)
    requires
        start >= 0,
        p >= 0,
    ensures
        bit_pos(order, start, k) >= 0,
        (bit_pos(order, start, k) == p) <==> (pos_index(order, start, p) == k),
        pos_index(order, start, bit_pos(order, start, k)) == k,
{
    match order {
        ByteOrder::LittleEndian => {},
        ByteOrder::BigEndian => {
            lemma_motorola_walk(start, k);
            let q = motorola_walk(start, k);
            if motorola_rank(q) == motorola_rank(p) {
                assert(q == p);
            }
        },
    }
}

/// A visited bit lies in the payload exactly when it comes before `fit_count`,
/// and the visit numbered `fit_count` is `first_bad_bit`.
pub proof fn lemma_fit(order: ByteOrder, start: int, k: nat)
    requires
        start >= 0,
    ensures
        fit_count(order, start) >= 0,
        bit_pos(order, start, k) >= 0,
        (bit_pos(order, start, k) < 512) <==> (k < fit_count(order, start)),
        bit_pos(order, start, fit_count(order, start) as nat) == first_bad_bit(order, start),
{
    lemma_bit_pos(order, start, k, first_bad_bit(order, start));
    match order {
        ByteOrder::LittleEndian => {},
        ByteOrder::BigEndian => {
            lemma_motorola_walk(start, k);
            let q = motorola_walk(start, k);
            assert(motorola_rank(q) / 8 == q / 8);
            if start < 512 {
                assert(motorola_rank(start) < 512);
            }
            lemma_bit_pos(order, start, fit_count(order, start) as nat, first_bad_bit(order, start));
        },
    }
}

/// The raw-bit numbering is its own inverse.
pub proof fn lemma_raw_index(order: ByteOrder, size: nat, j: nat)
    requires
        j < size,
    ensures
        raw_index(order, size, j) < size,
        raw_index(order, size, raw_index(order, size, j)) == j,
{
}

/// Integer shape of a signal's bit layout.
#[derive(Clone, Debug)]
pub struct DbcSignalLayout {
    pub name: String,
    pub frame_key: u32,
    pub arb_id: u32,
    pub extended: bool,
    pub message_size: u8,
    pub start_bit: u64,
    pub size: u64,
    pub byte_order: ByteOrder,
    pub value_type: ValueType,
}

/// The message for a signal wider than a raw value.
pub open spec fn size_error(name: Seq<char>, size: u64) -> Seq<char> {
    "signal '"@ + name + "' size "@ + dec(size as nat) + " exceeds 64 bits"@
}

proof fn lemma_or_bit(x: u64, b: u64, i: u64, j: u64)
    requires
        b <= 1,
        i < 64,
        j < 64,
        (x >> i) & 1 == 0,
    ensures
        ((x | (b << i)) >> j) & 1 == if j == i { b } else { (x >> j) & 1 },
{
    assert(((x | (b << i)) >> j) & 1 == if j == i { b } else { (x >> j) & 1 }) by (bit_vector)
        requires b <= 1, i < 64, j < 64, (x >> i) & 1 == 0;
}

proof fn lemma_shift_in_bit(x: u64, b: u64, j: u64)
    requires
        b <= 1,
        j < 64,
    ensures
        (((x << 1u64) | b) >> j) & 1 == if j == 0 { b } else { (x >> ((j - 1) as u64)) & 1 },
{
    assert((((x << 1u64) | b) >> j) & 1 == if j == 0 { b } else { (x >> ((j - 1) as u64)) & 1 }) by (bit_vector)
        requires b <= 1, j < 64;
}

proof fn lemma_zero_bits(j: u64)
    requires
        j < 64,
    ensures
        (0u64 >> j) & 1 == 0,
{
    assert((0u64 >> j) & 1 == 0) by (bit_vector);
}

/// Reads the raw value of a signal out of a frame's payload.
pub fn extract_raw(frame: &SimCanFrame, signal: &DbcSignalLayout) -> (r: Result<u64, String>)
    ensures
        signal.size > 64 ==> (r matches Err(m) && m@ == size_error(signal.name@, signal.size)),
        signal.size <= 64 ==> (r is Ok <==> layout_fits(signal.byte_order, signal.start_bit as int, signal.size as int)),
        signal.size <= 64 ==> (r matches Err(m) ==> m@ == bit_index_error(first_bad_bit(signal.byte_order, signal.start_bit as int) as u64)),
        r matches Ok(raw) ==> forall|j: int| 0 <= j < 64 ==> #[trigger] bit_of(raw, j) == if j < signal.size {
            raw_bit(frame.data@, signal.byte_order, signal.start_bit as int, signal.size as int, j) as u64
        } else {
            0
        },
{
    let ghost order = signal.byte_order;
    let ghost start = signal.start_bit as int;
    let ghost size = signal.size as int;
    if signal.size > 64 {
        let mut m = String::new();
        push_str(&mut m, "signal '");
        push_str(&mut m, signal.name.as_str());
        push_str(&mut m, "' size ");
        push_dec(&mut m, signal.size);
        push_str(&mut m, " exceeds 64 bits");
        return Err(m);
    }
    let mut raw: u64 = 0;
    proof {
        assert forall|j: int| 0 <= j < 64 implies #[trigger] bit_of(raw, j) == 0 by {
            lemma_zero_bits(j as u64);
        }
    }
    match signal.byte_order {
        ByteOrder::LittleEndian => {
            let mut idx: u64 = 0;
            while idx < signal.size
                invariant
                    order == ByteOrder::LittleEndian,
                    order == signal.byte_order,
                    start == signal.start_bit,
                    size == signal.size,
                    idx <= size <= 64,
                    idx > 0 ==> start + idx <= 512,
                    forall|j: int| 0 <= j < 64 ==> #[trigger] bit_of(raw, j) == if j < idx {
                        data_bit(frame.data@, start + j) as u64
                    } else {
                        0
                    },
                decreases size - idx,
            {
                let frame_bit = signal.start_bit + idx;
                match get_bit(&frame.data, frame_bit) {
                    Err(m) => {
                        proof {
                            lemma_fit(order, start, idx as nat);
                        }
                        return Err(m);
                    },
                    Ok(bit) => {
                        let ghost old_raw = raw;
                        raw = raw | ((bit as u64) << idx);
                        proof {
                            assert forall|j: int| 0 <= j < 64 implies #[trigger] bit_of(raw, j) == if j < idx + 1 {
                                data_bit(frame.data@, start + j) as u64
                            } else {
                                0
                            } by {
                                assert(bit_of(old_raw, idx as int) == 0);
                                lemma_or_bit(old_raw, bit as u64, idx, j as u64);
                                assert(bit_of(raw, j) == ((old_raw | ((bit as u64) << idx)) >> (j as u64)) & 1);
                                if j == idx {
                                    assert(bit_of(raw, j) == bit as u64);
                                } else {
                                    assert(bit_of(raw, j) == bit_of(old_raw, j));
                                }
                            }
                        }
                        idx = idx + 1;
                    },
                }
            }
            proof {
                if size > 0 {
                    lemma_fit(order, start, (size - 1) as nat);
                }
                assert forall|j: int| 0 <= j < 64 implies #[trigger] bit_of(raw, j) == if j < size {
                    raw_bit(frame.data@, order, start, size, j) as u64
                } else {
                    0
                } by {}
            }
            Ok(raw)
        },
        ByteOrder::BigEndian => {
            if signal.size == 0 {
                proof {
                    assert(fit_count(order, start) >= 0) by { lemma_fit(order, start, 0); }
                }
                return Ok(0);
            }
            if signal.start_bit >= 512 {
                proof {
                    lemma_fit(order, start, 0);
                }
                return Err(bit_index_error_message(signal.start_bit));
            }
            let mut pos: i64 = signal.start_bit as i64;
            let mut idx: u64 = 0;
            while idx < signal.size
                invariant
                    order == ByteOrder::BigEndian,
                    order == signal.byte_order,
                    start == signal.start_bit,
                    size == signal.size,
                    0 <= start < 512,
                    idx <= size <= 64,
                    pos == bit_pos(order, start, idx as nat),
                    idx <= fit_count(order, start),
                    forall|j: int| 0 <= j < 64 ==> #[trigger] bit_of(raw, j) == if j < idx {
                        data_bit(frame.data@, bit_pos(order, start, (idx - 1 - j) as nat)) as u64
                    } else {
                        0
                    },
                decreases size - idx,
            {
                proof {
                    lemma_fit(order, start, idx as nat);
                }
                match get_bit(&frame.data, pos as u64) {
                    Err(m) => {
                        return Err(m);
                    },
                    Ok(bit) => {
                        let ghost old_raw = raw;
                        raw = (raw << 1u64) | (bit as u64);
                        proof {
                            assert forall|j: int| 0 <= j < 64 implies #[trigger] bit_of(raw, j) == if j < idx + 1 {
                                data_bit(frame.data@, bit_pos(order, start, (idx - j) as nat)) as u64
                            } else {
                                0
                            } by {
                                lemma_shift_in_bit(old_raw, bit as u64, j as u64);
                                if j > 0 {
                                    assert(bit_of(old_raw, j - 1) == (old_raw >> ((j - 1) as u64)) & 1);
                                }
                            }
                        }
                        pos = next_motorola_bit(pos);
                        idx = idx + 1;
                    },
                }
            }
            proof {
                lemma_fit(order, start, (size - 1) as nat);
            }
            Ok(raw)
        },
    }
}

proof fn lemma_shift_bit_small(x: u64, j: u64)
    requires
        j < 64,
    ensures
        (x >> j) & 1 <= 1,
{
    assert((x >> j) & 1 <= 1) by (bit_vector);
}

/// Writes the raw value of a signal into a frame's payload.
///
/// The payload is written bit by bit in visiting order; when a visited bit
/// falls outside the payload the write stops there with an error, and the
/// bits stored before it stay stored.
pub fn insert_raw(frame: &mut SimCanFrame, signal: &DbcSignalLayout, raw: u64) -> (r: Result<(), String>)
    requires
        old(frame).data@.len() == 64,
        signal.size <= 64 || (signal.byte_order == ByteOrder::LittleEndian && signal.start_bit > 448),
    ensures
        r is Ok <==> layout_fits(signal.byte_order, signal.start_bit as int, signal.size as int),
        r matches Err(m) ==> m@ == bit_index_error(first_bad_bit(signal.byte_order, signal.start_bit as int) as u64),
        final(frame).arb_id == old(frame).arb_id,
        final(frame).len == old(frame).len,
        final(frame).flags == old(frame).flags,
        bits_written(
            old(frame).data@,
            final(frame).data@,
            signal.byte_order,
            signal.start_bit as int,
            signal.size as int,
            written_count(signal.byte_order, signal.start_bit as int, signal.size as int),
            raw,
        ),
{
    let ghost order = signal.byte_order;
    let ghost start = signal.start_bit as int;
    let ghost size = signal.size as int;
    let ghost old_data = frame.data@;
    proof {
        lemma_fit(order, start, 0);
    }
    match signal.byte_order {
        ByteOrder::LittleEndian => {
            let mut idx: u64 = 0;
            while idx < signal.size
                invariant
                    order == ByteOrder::LittleEndian,
                    order == signal.byte_order,
                    start == signal.start_bit,
                    size == signal.size,
                    size <= 64 || start > 448,
                    idx <= size,
                    idx > 0 ==> start + idx <= 512,
                    frame.arb_id == old(frame).arb_id,
                    frame.len == old(frame).len,
                    frame.flags == old(frame).flags,
                    old_data == old(frame).data@,
                    frame.data@.len() == 64,
                    bits_written(old_data, frame.data@, order, start, size, idx as int, raw),
                decreases size - idx,
            {
                let frame_bit = signal.start_bit + idx;
                let bit = ((raw >> idx) & 1) as u8;
                proof {
                    lemma_shift_bit_small(raw, idx);
                }
                let ghost before = frame.data@;
                match set_bit(&mut frame.data, frame_bit, bit) {
                    Err(m) => {
                        proof {
                            lemma_fit(order, start, idx as nat);
                        }
                        return Err(m);
                    },
                    Ok(()) => {
                        proof {
                            assert forall|p: int| 0 <= p < 512 implies #[trigger] data_bit(frame.data@, p) == if 0 <= pos_index(order, start, p) < idx + 1 {
                                bit_of(raw, raw_index(order, size as nat, pos_index(order, start, p) as nat) as int) as u8
                            } else {
                                data_bit(old_data, p)
                            } by {
                                lemma_set_bit_effect(before, frame_bit as int, bit, p);
                            }
                        }
                        idx = idx + 1;
                    },
                }
            }
            proof {
                if size > 0 {
                    lemma_fit(order, start, (size - 1) as nat);
                }
            }
            Ok(())
        },
        ByteOrder::BigEndian => {
            if signal.size == 0 {
                return Ok(());
            }
            if signal.start_bit >= 512 {
                return Err(bit_index_error_message(signal.start_bit));
            }
            let mut pos: i64 = signal.start_bit as i64;
            let mut idx: u64 = 0;
            while idx < signal.size
                invariant
                    order == ByteOrder::BigEndian,
                    order == signal.byte_order,
                    start == signal.start_bit,
                    size == signal.size,
                    0 <= start < 512,
                    idx <= size <= 64,
                    pos == bit_pos(order, start, idx as nat),
                    idx <= fit_count(order, start),
                    frame.arb_id == old(frame).arb_id,
                    frame.len == old(frame).len,
                    frame.flags == old(frame).flags,
                    old_data == old(frame).data@,
                    frame.data@.len() == 64,
                    bits_written(old_data, frame.data@, order, start, size, idx as int, raw),
                decreases size - idx,
            {
                proof {
                    lemma_fit(order, start, idx as nat);
                }
                let shift: u64 = signal.size - 1 - idx;
                let bit = ((raw >> shift) & 1) as u8;
                proof {
                    lemma_shift_bit_small(raw, shift);
                }
                let ghost before = frame.data@;
                match set_bit(&mut frame.data, pos as u64, bit) {
                    Err(m) => {
                        return Err(m);
                    },
                    Ok(()) => {
                        proof {
                            assert forall|p: int| 0 <= p < 512 implies #[trigger] data_bit(frame.data@, p) == if 0 <= pos_index(order, start, p) < idx + 1 {
                                bit_of(raw, raw_index(order, size as nat, pos_index(order, start, p) as nat) as int) as u8
                            } else {
                                data_bit(old_data, p)
                            } by {
                                lemma_set_bit_effect(before, pos as int, bit, p);
                                lemma_bit_pos(order, start, idx as nat, p);
                            }
                        }
                        pos = next_motorola_bit(pos);
                        idx = idx + 1;
                    },
                }
            }
            proof {
                lemma_fit(order, start, (size - 1) as nat);
            }
            Ok(())
        },
    }
}

/// A raw value written with `insert_raw` is what `extract_raw` reads back,
/// cut to the signal's width.
pub proof fn lemma_insert_extract_roundtrip(
    old_data: Seq<u8>,
    new_data: Seq<u8>,
    order: ByteOrder,
    start: int,
    size: int,
    raw: u64,
    j: int,
)
    requires
        start >= 0,
        0 <= j < size <= 64,
        layout_fits(order, start, size),
        bits_written(old_data, new_data, order, start, size, size, raw),
    ensures
        raw_bit(new_data, order, start, size, j) as u64 == bit_of(raw, j),
{
    let k = raw_index(order, size as nat, j as nat);
    lemma_raw_index(order, size as nat, j as nat);
    lemma_fit(order, start, k);
    let p = bit_pos(order, start, k);
    lemma_bit_pos(order, start, k, p);
    lemma_shift_bit_small(raw, j as u64);
}

/// The value `signed_from_raw` computes: the raw value read as `i64`, less
/// `1 << bits` (taken as `i64`) when the sign bit `bits - 1` is set.
pub open spec fn signed_value(raw: u64, bits: u64) -> int {
    if bits == 0 {
        0
    } else if bits >= 64 {
        (raw as i64) as int
    } else if bit_of(raw, bits - 1) == 0 {
        (raw as i64) as int
    } else {
        (raw as i64) as int - ((1u64 << bits) as i64) as int
    }
}

/// The low `bits` bits of a raw value read as a two's-complement integer:
/// the value itself while its top bit `bits - 1` is clear, the value less
/// `2^bits` once it is set (all ones of any width reads as -1). At 63 bits
/// with the top bit set the reading leaves `i64`, and the decoder is not
/// called there.
pub proof fn lemma_signed_is_twos_complement(raw: u64, bits: u64)
    requires
        1 <= bits < 64,
        raw < pow2(bits as nat),
    ensures
        raw < pow2((bits - 1) as nat) ==> signed_value(raw, bits) == raw,
        raw >= pow2((bits - 1) as nat) && bits < 63 ==> signed_value(raw, bits) == raw - pow2(bits as nat),
{
    let b1 = (bits - 1) as u64;
    let p = pow2(b1 as nat);
    vstd::bits::lemma_u64_shr_is_div(raw, b1);
    vstd::arithmetic::power2::lemma_pow2_adds(b1 as nat, 1);
    vstd::arithmetic::power2::lemma2_to64();
    vstd::arithmetic::power2::lemma_pow2_pos(b1 as nat);
    assert(pow2(bits as nat) == p * 2);
    let q: u64 = raw >> b1;
    assert(q == raw as nat / p);
    assert(raw as nat / p < 2 && (raw < p <==> raw as nat / p == 0)) by (nonlinear_arith)
        requires raw < p * 2, p > 0;
    assert(q & 1 == q) by (bit_vector)
        requires q < 2;
    assert(bit_of(raw, bits - 1) == q);
    vstd::bits::lemma_u64_pow2_no_overflow(63);
    vstd::arithmetic::power2::lemma_pow2_pos(bits as nat);
    if bits < 63 {
        vstd::arithmetic::power2::lemma_pow2_strictly_increases(bits as nat, 63);
    }
    if bits == 63 {
        assert(p == pow2(62));
        vstd::arithmetic::power2::lemma_pow2_strictly_increases(62, 63);
    } else {
        vstd::arithmetic::power2::lemma_pow2_strictly_increases(b1 as nat, 63);
    }
    vstd::arithmetic::power2::lemma2_to64_rest();
    assert(raw < pow2(63) || raw >= p);
    if raw < p {
        assert(raw < pow2(63));
        assert((raw as i64) as int == raw);
    } else if bits < 63 {
        vstd::bits::lemma_u64_pow2_no_overflow(bits as nat);
        vstd::bits::lemma_u64_shl_is_mul(1, bits);
        assert((1u64 << bits) == pow2(bits as nat));
        assert((raw as i64) as int == raw);
        assert(((1u64 << bits) as i64) as int == pow2(bits as nat));
    }
}

/// Reads the low `bits` bits of a raw value as a two's-complement integer.
pub fn signed_from_raw(raw: u64, bits: u64) -> (r: i64)
    requires
        i64::MIN <= signed_value(raw, bits) <= i64::MAX,
    ensures
        r == signed_value(raw, bits),
{
    if bits == 0 {
        return 0;
    }
    if bits >= 64 {
        return raw as i64;
    }
    let sign_bit: u64 = 1u64 << (bits - 1);
    assert((raw & (1u64 << ((bits - 1) as u64)) == 0) == ((raw >> ((bits - 1) as u64)) & 1 == 0)) by (bit_vector)
        requires bits < 64, bits >= 1;
    if (raw & sign_bit) == 0 {
        raw as i64
    } else {
        (raw as i64) - ((1u64 << bits) as i64)
    }
}

/// The mask of the low `size` bits.
pub open spec fn low_mask(size: u64) -> u64 {
    if size >= 64 { u64::MAX } else { ((1u64 << size) - 1) as u64 }
}

/// Outcome of range-checking a rounded raw value for a signal.
pub open spec fn raw_encoding(raw: i64, size: u64, value_type: ValueType) -> Option<u64> {
    match value_type {
        ValueType::Signed => {
            if raw < -vstd::arithmetic::power2::pow2((size - 1) as nat)
                || raw > vstd::arithmetic::power2::pow2((size - 1) as nat) - 1 {
                None
            } else {
                Some(((raw as i128) as u64) & low_mask(size))
            }
        },
        ValueType::Unsigned => {
            if raw < 0 || raw > low_mask(size) {
                None
            } else {
                Some(raw as u64)
            }
        },
    }
}

/// A raw value in a signal's range is encoded into the signal's bits so that
/// reading the bits back gives the value again: unchanged for an unsigned
/// signal, as two's complement of the signal's width for a signed one; and
/// every value outside the range is refused.
pub proof fn lemma_encode_decode_roundtrip(raw: i64, size: u64)
    requires
        1 <= size < 63,
    ensures
        (0 <= raw < pow2(size as nat)) <==> raw_encoding(raw, size, ValueType::Unsigned) is Some,
        raw_encoding(raw, size, ValueType::Unsigned) matches Some(e) ==> e == raw,
        (-pow2((size - 1) as nat) <= raw < pow2((size - 1) as nat)) <==> raw_encoding(raw, size, ValueType::Signed) is Some,
        raw_encoding(raw, size, ValueType::Signed) matches Some(e) ==> e < pow2(size as nat) && signed_value(e, size) == raw,
{
    vstd::bits::lemma_u64_pow2_no_overflow(size as nat);
    vstd::bits::lemma_u64_shl_is_mul(1, size);
    vstd::arithmetic::power2::lemma_pow2_pos(size as nat);
    assert(low_mask(size) == pow2(size as nat) - 1);
    vstd::arithmetic::power2::lemma_pow2_adds((size - 1) as nat, 1);
    vstd::arithmetic::power2::lemma2_to64();
    assert(pow2(size as nat) == 2 * pow2((size - 1) as nat));
    let p = pow2(size as nat);
    if -pow2((size - 1) as nat) <= raw < pow2((size - 1) as nat) {
        let w: u64 = (raw as i128) as u64;
        let pu: u64 = p as u64;
        assert(pu as int == p);
        let e = w & low_mask(size);
        vstd::bits::lemma_u64_low_bits_mask_is_mod(w, size as nat);
        assert(vstd::bits::low_bits_mask(size as nat) == p - 1);
        assert(e == w % pu);
        vstd::arithmetic::power2::lemma_pow2_strictly_increases(size as nat, 64);
        assert(w as int == if raw >= 0 { raw as int } else { raw + 0x1_0000_0000_0000_0000 }) by (bit_vector)
            requires w == (raw as i128) as u64;
        if raw >= 0 {
            assert(w % pu == w) by (nonlinear_arith)
                requires w < pu, pu > 0;
            lemma_signed_is_twos_complement(e, size);
        } else {
            vstd::arithmetic::power2::lemma_pow2_adds(size as nat, (64 - size) as nat);
            vstd::arithmetic::power2::lemma_pow2_pos((64 - size) as nat);
            let m = pow2((64 - size) as nat);
            assert(0x1_0000_0000_0000_0000 == p * m);
            assert(w as int == raw + pu * m);
            assert(w % pu == raw + pu) by (nonlinear_arith)
                requires w as int == raw + pu * m, 0 <= raw + pu < pu, pu > 0, m > 0;
            lemma_signed_is_twos_complement(e, size);
        }
    }
}

/// The message for a rounded raw value that does not fit a signal.
pub open spec fn raw_range_error(raw: i64, size: u64, value_type: ValueType, name: Seq<char>) -> Seq<char> {
    match value_type {
        ValueType::Signed => "encoded raw value "@ + dec_int(raw as int) + " exceeds signed "@ + dec(size as nat)
            + "-bit range for signal '"@ + name + "'"@,
        ValueType::Unsigned => if raw < 0 {
            "encoded raw value "@ + dec_int(raw as int) + " is negative for unsigned signal '"@ + name + "'"@
        } else {
            "encoded raw value "@ + dec_int(raw as int) + " exceeds unsigned "@ + dec(size as nat)
                + "-bit range for signal '"@ + name + "'"@
        },
    }
}

fn raw_range_error_message(raw: i64, signal: &DbcSignalLayout) -> (m: String)
    ensures
        m@ == raw_range_error(raw, signal.size, signal.value_type, signal.name@),
{
    let mut m = String::new();
    push_str(&mut m, "encoded raw value ");
    push_dec_i64(&mut m, raw);
    match signal.value_type {
        ValueType::Signed => {
            push_str(&mut m, " exceeds signed ");
            push_dec(&mut m, signal.size);
            push_str(&mut m, "-bit range for signal '");
        },
        ValueType::Unsigned => {
            if raw < 0 {
                push_str(&mut m, " is negative for unsigned signal '");
            } else {
                push_str(&mut m, " exceeds unsigned ");
                push_dec(&mut m, signal.size);
                push_str(&mut m, "-bit range for signal '");
            }
        },
    }
    push_str(&mut m, signal.name.as_str());
    push_str(&mut m, "'");
    m
}

/// Range-checks a rounded raw value against a signal's width and signedness.
pub fn encode_raw_value(raw: i64, signal: &DbcSignalLayout) -> (r: Result<u64, String>)
    requires
        signal.value_type == ValueType::Signed ==> 1 <= signal.size <= 64,
        signal.value_type == ValueType::Unsigned ==> (raw < 0 || signal.size <= 64),
    ensures
        match raw_encoding(raw, signal.size, signal.value_type) {
            Some(v) => r == Ok::<u64, String>(v),
            None => r matches Err(m) && m@ == raw_range_error(raw, signal.size, signal.value_type, signal.name@),
        },
{
    match signal.value_type {
        ValueType::Signed => {
            let half: u64 = 1u64 << (signal.size - 1);
            proof {
                vstd::bits::lemma_u64_pow2_no_overflow((signal.size - 1) as nat);
                vstd::bits::lemma_u64_shl_is_mul(1u64, (signal.size - 1) as u64);
            }
            let min: i128 = -(half as i128);
            let max: i128 = (half as i128) - 1;
            let val: i128 = raw as i128;
            if val < min || val > max {
                return Err(raw_range_error_message(raw, signal));
            }
            proof {
                if signal.size < 64 {
                    vstd::bits::lemma_u64_pow2_no_overflow(signal.size as nat);
                    vstd::bits::lemma_u64_shl_is_mul(1u64, signal.size);
                }
            }
            let mask: u64 = if signal.size == 64 { u64::MAX } else { (1u64 << signal.size) - 1 };
            Ok(((raw as i128) as u64) & mask)
        },
        ValueType::Unsigned => {
            if raw < 0 {
                return Err(raw_range_error_message(raw, signal));
            }
            proof {
                if signal.size < 64 {
                    vstd::bits::lemma_u64_pow2_no_overflow(signal.size as nat);
                    vstd::bits::lemma_u64_shl_is_mul(1u64, signal.size);
                }
            }
            let max: u64 = if signal.size == 64 { u64::MAX } else { (1u64 << signal.size) - 1 };
            let value = raw as u64;
            if value > max {
                return Err(raw_range_error_message(raw, signal));
            }
            Ok(value)
        },
    }
}

/// Frame flags after a signal of the given message was encoded into a frame of `len` bytes.
pub open spec fn encoded_flags(flags: u8, len: u8, extended: bool) -> u8 {
    let f = if len > 8 { flags | CAN_FLAG_FD } else { flags & !CAN_FLAG_FD };
    if extended { f | CAN_FLAG_EXTENDED } else { f & !CAN_FLAG_EXTENDED }
}

/// Stores a rounded raw value of a signal into a frame: the range check, the
/// bit write, then the frame length and the FD and extended-id flags.
pub fn encode_raw(frame: &mut SimCanFrame, signal: &DbcSignalLayout, raw: i64) -> (r: Result<(), String>)
    requires
        old(frame).data@.len() == 64,
        signal.value_type == ValueType::Signed ==> 1 <= signal.size <= 64,
        signal.value_type == ValueType::Unsigned ==> (raw < 0 || signal.size <= 64),
    ensures
        raw_encoding(raw, signal.size, signal.value_type) is None ==> (r matches Err(m)
            && m@ == raw_range_error(raw, signal.size, signal.value_type, signal.name@)
            && *final(frame) == *old(frame)),
        raw_encoding(raw, signal.size, signal.value_type) matches Some(v) ==> {
            &&& (r is Ok <==> layout_fits(signal.byte_order, signal.start_bit as int, signal.size as int))
            &&& (r matches Err(m) ==> m@ == bit_index_error(first_bad_bit(signal.byte_order, signal.start_bit as int) as u64))
            &&& bits_written(
                old(frame).data@,
                final(frame).data@,
                signal.byte_order,
                signal.start_bit as int,
                signal.size as int,
                written_count(signal.byte_order, signal.start_bit as int, signal.size as int),
                v,
            )
            &&& final(frame).arb_id == old(frame).arb_id
            &&& r is Ok ==> final(frame).len == (if signal.message_size > old(frame).len { signal.message_size } else { old(frame).len })
                && final(frame).flags == encoded_flags(old(frame).flags, final(frame).len, signal.extended)
            &&& r is Err ==> final(frame).len == old(frame).len && final(frame).flags == old(frame).flags
        },
{
    let value = match encode_raw_value(raw, signal) {
        Ok(v) => v,
        Err(m) => {
            return Err(m);
        },
    };
    match insert_raw(frame, signal, value) {
        Ok(()) => {},
        Err(m) => {
            return Err(m);
        },
    }
    if signal.message_size > frame.len {
        frame.len = signal.message_size;
    }
    if frame.len > 8 {
        frame.flags = frame.flags | CAN_FLAG_FD;
    } else {
        frame.flags = frame.flags & !CAN_FLAG_FD;
    }
    if signal.extended {
        frame.flags = frame.flags | CAN_FLAG_EXTENDED;
    } else {
        frame.flags = frame.flags & !CAN_FLAG_EXTENDED;
    }
    Ok(())
}

/// Why a DBC message's payload size is refused, if it is.
pub open spec fn dbc_message_fault(message_name: Seq<char>, size: u64) -> Option<Seq<char>> {
    if size > 255 {
        Some("DBC message '"@ + message_name + "' has invalid size "@ + dec(size as nat) + "; max supported is 255 bytes"@)
    } else if size > 64 {
        Some("DBC message '"@ + message_name + "' size "@ + dec(size as nat) + " exceeds CAN FD max payload (64)"@)
    } else {
        None
    }
}

/// Checks the payload size of a DBC message: a byte count, at most 64.
pub fn check_dbc_message(message_name: &str, size: u64) -> (r: Result<u8, String>)
    ensures
        match dbc_message_fault(message_name@, size) {
            None => r == Ok::<u8, String>(size as u8),
            Some(m) => r matches Err(e) && e@ == m,
        },
{
    let mut m = String::new();
    if size > 255 {
        push_str(&mut m, "DBC message '");
        push_str(&mut m, message_name);
        push_str(&mut m, "' has invalid size ");
        push_dec(&mut m, size);
        push_str(&mut m, "; max supported is 255 bytes");
        return Err(m);
    }
    if size > 64 {
        push_str(&mut m, "DBC message '");
        push_str(&mut m, message_name);
        push_str(&mut m, "' size ");
        push_dec(&mut m, size);
        push_str(&mut m, " exceeds CAN FD max payload (64)");
        return Err(m);
    }
    Ok(size as u8)
}

/// Why a DBC signal is refused, if it is: multiplexing, or a width outside 1 to 64 bits.
pub open spec fn dbc_signal_fault(message_name: Seq<char>, signal_name: Seq<char>, plain: bool, size: u64) -> Option<Seq<char>> {
    if !plain {
        Some("DBC signal '"@ + message_name + "."@ + signal_name + "' uses multiplexing, which is unsupported in this version"@)
    } else if size == 0 || size > 64 {
        Some("DBC signal '"@ + message_name + "."@ + signal_name + "' has invalid size "@ + dec(size as nat))
    } else {
        None
    }
}

/// Checks a DBC signal: not multiplexed, and 1 to 64 bits wide.
pub fn check_dbc_signal(message_name: &str, signal_name: &str, plain: bool, size: u64) -> (r: Result<(), String>)
    ensures
        match dbc_signal_fault(message_name@, signal_name@, plain, size) {
            None => r is Ok,
            Some(m) => r matches Err(e) && e@ == m,
        },
{
    let mut m = String::new();
    if !plain {
        push_str(&mut m, "DBC signal '");
        push_str(&mut m, message_name);
        push_str(&mut m, ".");
        push_str(&mut m, signal_name);
        push_str(&mut m, "' uses multiplexing, which is unsupported in this version");
        return Err(m);
    }
    if size == 0 || size > 64 {
        push_str(&mut m, "DBC signal '");
        push_str(&mut m, message_name);
        push_str(&mut m, ".");
        push_str(&mut m, signal_name);
        push_str(&mut m, "' has invalid size ");
        push_dec(&mut m, size);
        return Err(m);
    }
    Ok(())
}

} // verus!
