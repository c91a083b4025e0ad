//! Checks on the signal, CAN bus and shared channel lists a project exports.
use vstd::prelude::*;
use crate::sim::error::{ProjectError, SimError};
use crate::sim::types::{SignalMeta, SimCanBusDesc, SimSharedDesc};
use crate::text::{dec, has_prefix, is_whitespace, is_ws, push_dec, push_str, starts_with, str_chars};

verus! {

/// Every character is whitespace, so the trimmed text is empty.
pub open spec fn blank(s: Seq<char>) -> bool {
    forall|i: int| 0 <= i < s.len() ==> #[trigger] is_ws(s[i])
}

pub fn is_blank(s: &str) -> (r: bool)
    ensures
        r == blank(s@),
{
    let cs = str_chars(s);
    let mut i: usize = 0;
    while i < cs.len()
        invariant
            cs@ == s@,
            i <= cs@.len(),
            forall|j: int| 0 <= j < i ==> #[trigger] is_ws(cs@[j]),
        decreases cs.len() - i,
    {
        if !is_whitespace(cs[i]) {
            return false;
        }
        i = i + 1;
    }
    true
}

pub fn same_text(a: &str, b: &str) -> (r: bool)
    ensures
        r == (a@ == b@),
{
    let x = str_chars(a);
    let y = str_chars(b);
    if x.len() != y.len() {
        return false;
    }
    let mut i: usize = 0;
    while i < x.len()
        invariant
            x@ == a@,
            y@ == b@,
            x.len() == y.len(),
            i <= x.len(),
            forall|j: int| 0 <= j < i ==> x@[j] == y@[j],
        decreases x.len() - i,
    {
        if x[i] != y[i] {
            return false;
        }
        i = i + 1;
    }
    assert(x@ =~= y@);
    true
}

/// The complaint about signal `i`, given that the signals before it passed.
pub open spec fn signal_fault(s: Seq<SignalMeta>, i: int) -> Option<Seq<char>> {
    if blank(s[i].name@) {
        Some("signal names must be non-empty"@)
    } else if has_prefix(s[i].name@, "can."@) {
        Some("signal '"@ + s[i].name@ + "' uses reserved namespace 'can.'"@)
    } else if exists|j: int| 0 <= j < i && s[j].id == s[i].id {
        Some("duplicate signal id "@ + dec(s[i].id as nat))
    } else if exists|j: int| 0 <= j < i && s[j].name@ == s[i].name@ {
        Some("duplicate signal name '"@ + s[i].name@ + "'"@)
    } else {
        None
    }
}

/// The complaint about CAN bus `i`, given that the buses before it passed.
pub open spec fn can_bus_fault(s: Seq<SimCanBusDesc>, i: int) -> Option<Seq<char>> {
    if blank(s[i].name@) {
        Some("CAN bus names must be non-empty"@)
    } else if exists|j: int| 0 <= j < i && s[j].id == s[i].id {
        Some("duplicate CAN bus id "@ + dec(s[i].id as nat))
    } else if exists|j: int| 0 <= j < i && s[j].name@ == s[i].name@ {
        Some("duplicate CAN bus name '"@ + s[i].name@ + "'"@)
    } else {
        None
    }
}

/// The complaint about shared channel `i`, given that the channels before it passed.
pub open spec fn shared_fault(s: Seq<SimSharedDesc>, i: int) -> Option<Seq<char>> {
    if blank(s[i].name@) {
        Some("shared channel names must be non-empty"@)
    } else if s[i].slot_count == 0 {
        Some("shared channel '"@ + s[i].name@ + "' must declare at least one slot"@)
    } else if exists|j: int| 0 <= j < i && s[j].id == s[i].id {
        Some("duplicate shared channel id "@ + dec(s[i].id as nat))
    } else if exists|j: int| 0 <= j < i && s[j].name@ == s[i].name@ {
        Some("duplicate shared channel name '"@ + s[i].name@ + "'"@)
    } else {
        None
    }
}

/// `i` is the first entry with a complaint, which is `m`.
pub open spec fn first_fault_at(faults: Seq<Option<Seq<char>>>, i: int, m: Seq<char>) -> bool {
    &&& 0 <= i < faults.len()
    &&& faults[i] == Some(m)
    &&& forall|j: int| 0 <= j < i ==> (#[trigger] faults[j]) is None
}

/// The complaints about each signal.
pub open spec fn signal_faults(s: Seq<SignalMeta>) -> Seq<Option<Seq<char>>> {
    Seq::new(s.len(), |j: int| signal_fault(s, j))
}

/// The complaints about each CAN bus.
pub open spec fn can_bus_faults(s: Seq<SimCanBusDesc>) -> Seq<Option<Seq<char>>> {
    Seq::new(s.len(), |j: int| can_bus_fault(s, j))
}

/// The complaints about each shared channel.
pub open spec fn shared_faults(s: Seq<SimSharedDesc>) -> Seq<Option<Seq<char>>> {
    Seq::new(s.len(), |j: int| shared_fault(s, j))
}

/// Checks signal names and ids: names non-empty, outside the `can.`
/// namespace, and ids and names unique. Reports the first failing signal.
pub fn validate_signal_metadata(signals: &[SignalMeta]) -> (r: Result<(), ProjectError>)
    ensures
        r is Ok <==> forall|i: int| 0 <= i < signals@.len() ==> (#[trigger] signal_fault(signals@, i)) is None,
        r matches Err(e) ==> exists|i: int, m: Seq<char>| #[trigger] first_fault_at(signal_faults(signals@), i, m)
            && (e matches ProjectError::InvalidSignalMetadata(msg) && msg@ == m),
{
    let ghost s = signals@;
    let mut i: usize = 0;
    while i < signals.len()
        invariant
            s == signals@,
            i <= s.len(),
            forall|j: int| 0 <= j < i ==> (#[trigger] signal_fault(s, j)) is None,
        decreases s.len() - i,
    {
        let sig = &signals[i];
        let name = sig.name.as_str();
        let fault: Option<String> = if is_blank(name) {
            let mut m = String::new();
            push_str(&mut m, "signal names must be non-empty");
            Some(m)
        } else if starts_with(str_chars(name).as_slice(), "can.") {
            let mut m = String::new();
            push_str(&mut m, "signal '");
            push_str(&mut m, name);
            push_str(&mut m, "' uses reserved namespace 'can.'");
            Some(m)
        } else {
            let mut dup_id = false;
            let mut dup_name = false;
            let mut j: usize = 0;
            while j < i
                invariant
                    s == signals@,
                    i < s.len(),
                    j <= i,
                    *sig == s[i as int],
                    name@ == s[i as int].name@,
                    dup_id == exists|k: int| 0 <= k < j && s[k].id == s[i as int].id,
                    dup_name == exists|k: int| 0 <= k < j && s[k].name@ == s[i as int].name@,
                decreases i - j,
            {
                if signals[j].id == sig.id {
                    dup_id = true;
                }
                if same_text(signals[j].name.as_str(), name) {
                    dup_name = true;
                }
                proof {
                    if exists|k: int| 0 <= k < j + 1 && s[k].id == s[i as int].id {
                        let k = choose|k: int| 0 <= k < j + 1 && s[k].id == s[i as int].id;
                        if k < j {
                        }
                    }
                    if exists|k: int| 0 <= k < j + 1 && s[k].name@ == s[i as int].name@ {
                        let k = choose|k: int| 0 <= k < j + 1 && s[k].name@ == s[i as int].name@;
                        if k < j {
                        }
                    }
                }
                j = j + 1;
            }
            if dup_id {
                let mut m = String::new();
                push_str(&mut m, "duplicate signal id ");
                push_dec(&mut m, sig.id as u64);
                Some(m)
            } else if dup_name {
                let mut m = String::new();
                push_str(&mut m, "duplicate signal name '");
                push_str(&mut m, name);
                push_str(&mut m, "'");
                Some(m)
            } else {
                None
            }
        };
        match fault {
            Some(m) => {
                proof {
                    assert(signal_fault(s, i as int) == Some(m@));
                    assert(first_fault_at(signal_faults(s), i as int, m@));
                }
                return Err(ProjectError::InvalidSignalMetadata(m));
            },
            None => {},
        }
        i = i + 1;
    }
    Ok(())
}

/// Checks CAN bus names and ids: names non-empty, ids and names unique.
/// Reports the first failing bus.
pub fn validate_can_metadata(buses: &[SimCanBusDesc]) -> (r: Result<(), ProjectError>)
    ensures
        r is Ok <==> forall|i: int| 0 <= i < buses@.len() ==> (#[trigger] can_bus_fault(buses@, i)) is None,
        r matches Err(e) ==> exists|i: int, m: Seq<char>| #[trigger] first_fault_at(can_bus_faults(buses@), i, m)
            && (e matches ProjectError::InvalidCanMetadata(msg) && msg@ == m),
{
    let ghost s = buses@;
    let mut i: usize = 0;
    while i < buses.len()
        invariant
            s == buses@,
            i <= s.len(),
            forall|j: int| 0 <= j < i ==> (#[trigger] can_bus_fault(s, j)) is None,
        decreases s.len() - i,
    {
        let bus = &buses[i];
        let name = bus.name.as_str();
        let fault: Option<String> = if is_blank(name) {
            let mut m = String::new();
            push_str(&mut m, "CAN bus names must be non-empty");
            Some(m)
        } else {
            let mut dup_id = false;
            let mut dup_name = false;
            let mut j: usize = 0;
            while j < i
                invariant
                    s == buses@,
                    i < s.len(),
                    j <= i,
                    *bus == s[i as int],
                    name@ == s[i as int].name@,
                    dup_id == exists|k: int| 0 <= k < j && s[k].id == s[i as int].id,
                    dup_name == exists|k: int| 0 <= k < j && s[k].name@ == s[i as int].name@,
                decreases i - j,
            {
                if buses[j].id == bus.id {
                    dup_id = true;
                }
                if same_text(buses[j].name.as_str(), name) {
                    dup_name = true;
                }
                proof {
                    if exists|k: int| 0 <= k < j + 1 && s[k].id == s[i as int].id {
                        let k = choose|k: int| 0 <= k < j + 1 && s[k].id == s[i as int].id;
                        if k < j {
                        }
                    }
                    if exists|k: int| 0 <= k < j + 1 && s[k].name@ == s[i as int].name@ {
                        let k = choose|k: int| 0 <= k < j + 1 && s[k].name@ == s[i as int].name@;
                        if k < j {
                        }
                    }
                }
                j = j + 1;
            }
            if dup_id {
                let mut m = String::new();
                push_str(&mut m, "duplicate CAN bus id ");
                push_dec(&mut m, bus.id as u64);
                Some(m)
            } else if dup_name {
                let mut m = String::new();
                push_str(&mut m, "duplicate CAN bus name '");
                push_str(&mut m, name);
                push_str(&mut m, "'");
                Some(m)
            } else {
                None
            }
        };
        match fault {
            Some(m) => {
                proof {
                    assert(can_bus_fault(s, i as int) == Some(m@));
                    assert(first_fault_at(can_bus_faults(s), i as int, m@));
                }
                return Err(ProjectError::InvalidCanMetadata(m));
            },
            None => {},
        }
        i = i + 1;
    }
    Ok(())
}

/// Checks shared channels: names non-empty, at least one slot, ids and
/// names unique. Reports the first failing channel.
pub fn validate_shared_metadata(channels: &[SimSharedDesc]) -> (r: Result<(), ProjectError>)
    ensures
        r is Ok <==> forall|i: int| 0 <= i < channels@.len() ==> (#[trigger] shared_fault(channels@, i)) is None,
        r matches Err(e) ==> exists|i: int, m: Seq<char>| #[trigger] first_fault_at(shared_faults(channels@), i, m)
            && (e matches ProjectError::InvalidSharedMetadata(msg) && msg@ == m),
{
    let ghost s = channels@;
    let mut i: usize = 0;
    while i < channels.len()
        invariant
            s == channels@,
            i <= s.len(),
            forall|j: int| 0 <= j < i ==> (#[trigger] shared_fault(s, j)) is None,
        decreases s.len() - i,
    {
        let ch = &channels[i];
        let name = ch.name.as_str();
        let fault: Option<String> = if is_blank(name) {
            let mut m = String::new();
            push_str(&mut m, "shared channel names must be non-empty");
            Some(m)
        } else if ch.slot_count == 0 {
            let mut m = String::new();
            push_str(&mut m, "shared channel '");
            push_str(&mut m, name);
            push_str(&mut m, "' must declare at least one slot");
            Some(m)
        } else {
            let mut dup_id = false;
            let mut dup_name = false;
            let mut j: usize = 0;
            while j < i
                invariant
                    s == channels@,
                    i < s.len(),
                    j <= i,
                    *ch == s[i as int],
                    name@ == s[i as int].name@,
                    dup_id == exists|k: int| 0 <= k < j && s[k].id == s[i as int].id,
                    dup_name == exists|k: int| 0 <= k < j && s[k].name@ == s[i as int].name@,
                decreases i - j,
            {
                if channels[j].id == ch.id {
                    dup_id = true;
                }
                if same_text(channels[j].name.as_str(), name) {
                    dup_name = true;
                }
                proof {
                    if exists|k: int| 0 <= k < j + 1 && s[k].id == s[i as int].id {
                        let k = choose|k: int| 0 <= k < j + 1 && s[k].id == s[i as int].id;
                        if k < j {
                        }
                    }
                    if exists|k: int| 0 <= k < j + 1 && s[k].name@ == s[i as int].name@ {
                        let k = choose|k: int| 0 <= k < j + 1 && s[k].name@ == s[i as int].name@;
                        if k < j {
                        }
                    }
                }
                j = j + 1;
            }
            if dup_id {
                let mut m = String::new();
                push_str(&mut m, "duplicate shared channel id ");
                push_dec(&mut m, ch.id as u64);
                Some(m)
            } else if dup_name {
                let mut m = String::new();
                push_str(&mut m, "duplicate shared channel name '");
                push_str(&mut m, name);
                push_str(&mut m, "'");
                Some(m)
            } else {
                None
            }
        };
        match fault {
            Some(m) => {
                proof {
                    assert(shared_fault(s, i as int) == Some(m@));
                    assert(first_fault_at(shared_faults(s), i as int, m@));
                }
                return Err(ProjectError::InvalidSharedMetadata(m));
            },
            None => {},
        }
        i = i + 1;
    }
    Ok(())
}

/// The first position whose slot id is not its position.
pub open spec fn first_out_of_place(ids: Seq<u32>) -> int {
    choose|i: int| 0 <= i < ids.len() && ids[i] != i && forall|j: int| 0 <= j < i ==> #[trigger] ids[j] == j
}

/// Why a shared snapshot of `ids` is not the dense one a channel of `n`
/// slots has (slot `i` at position `i`), if it is not.
pub open spec fn dense_snapshot_fault(ids: Seq<u32>, n: nat, context: Seq<char>) -> Option<Seq<char>> {
    if ids.len() != n {
        Some(context + " returned "@ + dec(ids.len()) + " slots, expected "@ + dec(n))
    } else if exists|i: int| 0 <= i < ids.len() && #[trigger] ids[i] != i {
        let i = first_out_of_place(ids);
        Some(context + " returned slot id "@ + dec(ids[i] as nat) + " at dense index "@ + dec(i as nat) + "; expected slot id "@
            + dec(i as nat))
    } else {
        None
    }
}

/// Checks that a shared snapshot, given by its slot ids, holds every slot of
/// a channel of `expected_slot_count` slots in order.
pub fn validate_dense_shared_snapshot(slot_ids: &[u32], expected_slot_count: usize, context: &str) -> (r: Result<(), SimError>)
    ensures
        match dense_snapshot_fault(slot_ids@, expected_slot_count as nat, context@) {
            None => r is Ok,
            Some(m) => r matches Err(SimError::FfiContract(e)) && e@ == m,
        },
{
    if slot_ids.len() != expected_slot_count {
        let mut m = String::new();
        push_str(&mut m, context);
        push_str(&mut m, " returned ");
        push_dec(&mut m, slot_ids.len() as u64);
        push_str(&mut m, " slots, expected ");
        push_dec(&mut m, expected_slot_count as u64);
        assert(m@ =~= context@ + " returned "@ + dec(slot_ids@.len()) + " slots, expected "@ + dec(expected_slot_count as nat));
        return Err(SimError::FfiContract(m));
    }
    let mut i: usize = 0;
    while i < slot_ids.len()
        invariant
            i <= slot_ids@.len(),
            slot_ids@.len() == expected_slot_count,
            forall|j: int| 0 <= j < i ==> #[trigger] slot_ids@[j] == j,
        decreases slot_ids@.len() - i,
    {
        if slot_ids[i] as usize != i {
            let mut m = String::new();
            push_str(&mut m, context);
            push_str(&mut m, " returned slot id ");
            push_dec(&mut m, slot_ids[i] as u64);
            push_str(&mut m, " at dense index ");
            push_dec(&mut m, i as u64);
            push_str(&mut m, "; expected slot id ");
            push_dec(&mut m, i as u64);
            proof {
                assert(slot_ids@[i as int] != i);
                let k = first_out_of_place(slot_ids@);
                assert(0 <= i < slot_ids@.len() && slot_ids@[i as int] != i && forall|j: int| 0 <= j < i ==> #[trigger] slot_ids@[j] == j);
                if k < i {
                    assert(slot_ids@[k] == k);
                }
                if k > i {
                    assert(slot_ids@[i as int] == i);
                }
                assert(k == i);
            }
            assert(m@ =~= context@ + " returned slot id "@ + dec(slot_ids@[i as int] as nat) + " at dense index "@ + dec(i as nat)
                + "; expected slot id "@ + dec(i as nat));
            return Err(SimError::FfiContract(m));
        }
        i = i + 1;
    }
    Ok(())
}

} // verus!
