//! The publication protocol of shared-state regions: a generation counter
//! that is odd while a writer is busy, and the header's writer name.
use vstd::prelude::*;
use vstd::utf8::encode_utf8;
use crate::text::{dec, push_dec, push_str};

verus! {

/// Why a snapshot could not be read.
#[derive(Clone, Copy, Debug, PartialEq, Eq)]
pub enum SharedSnapshotError {
    Busy { attempts: usize },
}

impl SharedSnapshotError {
    /// The message of the error.
    pub fn message(&self) -> (r: String)
        ensures
            match *self {
                SharedSnapshotError::Busy { attempts } => r@ == "shared snapshot remained unstable after "@
                    + dec(attempts as nat) + " read attempts"@,
            },
    {
        match self {
            SharedSnapshotError::Busy { attempts } => {
                let mut m = String::new();
                push_str(&mut m, "shared snapshot remained unstable after ");
                push_dec(&mut m, *attempts as u64);
                push_str(&mut m, " read attempts");
                m
            },
        }
    }
}

/// The generation a publication shows while writing, and after it.
pub open spec fn publish_generations(g: u64) -> (u64, u64) {
    (g.wrapping_add(1), g.wrapping_add(2))
}

/// The two generations a publication of a region at generation `g` stores.
pub fn publish_steps(g: u64) -> (r: (u64, u64))
    ensures
        r == publish_generations(g),
{
    (g.wrapping_add(1), g.wrapping_add(2))
}

/// A publication from a stable state marks the region busy while writing and
/// stable again after, across the wrap of the counter too.
pub proof fn lemma_publish_parity(g: u64)
    requires
        g % 2 == 0,
    ensures
        publish_generations(g).0 % 2 == 1,
        publish_generations(g).1 % 2 == 0,
{
    assert(g.wrapping_add(1) % 2 == 1 && g.wrapping_add(2) % 2 == 0) by (bit_vector)
        requires g % 2 == 0;
}

/// A read taken between two generation loads is a snapshot when no writer
/// was busy and none finished in between.
pub fn snapshot_is_stable(before: u64, after: u64) -> (r: bool)
    ensures
        r == (before % 2 == 0 && before == after),
{
    before % 2 == 0 && before == after
}

/// Checks the slots of a publication against the region's capacity.
pub fn check_publish(slot_ids: &[u32], slot_count: usize) -> (r: Result<(), String>)
    ensures
        slot_ids@.len() > slot_count ==> (r matches Err(m) && m@ == "attempted to publish "@ + dec(slot_ids@.len())
            + " slots into region with capacity "@ + dec(slot_count as nat)),
        slot_ids@.len() <= slot_count ==> match r {
            Ok(()) => forall|i: int| 0 <= i < slot_ids@.len() ==> #[trigger] slot_ids@[i] < slot_count,
            Err(m) => exists|i: int| 0 <= i < slot_ids@.len() && slot_ids@[i] >= slot_count && (forall|j: int| 0 <= j < i ==> #[trigger] slot_ids@[j] < slot_count)
                && m@ == "shared slot id "@ + dec(slot_ids@[i] as nat) + " exceeds channel capacity "@ + dec(slot_count as nat),
        },
{
    if slot_ids.len() > slot_count {
        let mut m = String::new();
        push_str(&mut m, "attempted to publish ");
        push_dec(&mut m, slot_ids.len() as u64);
        push_str(&mut m, " slots into region with capacity ");
        push_dec(&mut m, slot_count as u64);
        assert(m@ =~= "attempted to publish "@ + dec(slot_ids@.len()) + " slots into region with capacity "@ + dec(slot_count as nat));
        return Err(m);
    }
    let mut i: usize = 0;
    while i < slot_ids.len()
        invariant
            i <= slot_ids@.len(),
            slot_ids@.len() <= slot_count,
            forall|j: int| 0 <= j < i ==> #[trigger] slot_ids@[j] < slot_count,
        decreases slot_ids@.len() - i,
    {
        if slot_ids[i] as usize >= slot_count {
            let mut m = String::new();
            push_str(&mut m, "shared slot id ");
            push_dec(&mut m, slot_ids[i] as u64);
            push_str(&mut m, " exceeds channel capacity ");
            push_dec(&mut m, slot_count as u64);
            assert(m@ =~= "shared slot id "@ + dec(slot_ids@[i as int] as nat) + " exceeds channel capacity "@ + dec(slot_count as nat));
            return Err(m);
        }
        i = i + 1;
    }
    Ok(())
}

/// The writer name field of a region header: the UTF-8 bytes of the name,
/// at most 63 of them, then zeros.
pub open spec fn writer_field(name: Seq<char>) -> Seq<u8> {
    let b = encode_utf8(name);
    let n = if b.len() < 63 { b.len() as int } else { 63 };
    Seq::new(64, |i: int| if i < n { b[i] } else { 0u8 })
}

pub fn encode_writer(writer_session: &str) -> (out: [u8; 64])
    ensures
        out@ == writer_field(writer_session@),
{
    let mut out = [0u8; 64];
    let bytes = writer_session.as_bytes();
    let len: usize = if bytes.len() < 63 { bytes.len() } else { 63 };
    let mut i: usize = 0;
    while i < len
        invariant
            len <= 63,
            len <= bytes@.len(),
            bytes@ == encode_utf8(writer_session@),
            len == if bytes@.len() < 63 { bytes@.len() as int } else { 63 },
            i <= len,
            out@.len() == 64,
            forall|j: int| 0 <= j < i ==> out@[j] == bytes@[j],
            forall|j: int| i <= j < 64 ==> #[trigger] out@[j] == 0,
        decreases len - i,
    {
        out[i] = bytes[i];
        i = i + 1;
    }
    assert(out@ =~= writer_field(writer_session@));
    out
}

} // verus!
