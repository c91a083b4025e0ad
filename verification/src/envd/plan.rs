//! What an env daemon settles while it starts: the tick duration its
//! instances share, and the settings of each env CAN bus from its members.
use vstd::prelude::*;
use crate::envd::spec::EnvCanBusMemberSpec;
use crate::protocol::CanBusData;
use crate::text::{dec, push_dec, push_str};

verus! {

/// The message for instances whose tick durations differ.
pub open spec fn tick_mismatch_message(env: Seq<char>, instance: Seq<char>, reported: u32, expected: u32) -> Seq<char> {
    "env '"@ + env + "' requires matching tick durations, but instance '"@ + instance + "' reports "@
        + dec(reported as nat) + "us and another member reports "@ + dec(expected as nat) + "us"@
}

/// The message for an env none of whose instances gave a tick duration.
pub open spec fn no_tick_message(env: Seq<char>) -> Seq<char> {
    "env '"@ + env + "' must define at least one instance with a valid tick duration"@
}

/// Takes in the tick duration one more instance reports: the first one
/// sets it, a later one must agree with it.
pub fn merge_tick_duration(env: &str, current: Option<u32>, instance: &str, reported: u32) -> (r: Result<Option<u32>, String>)
    ensures
        match current {
            Some(expected) => if expected != reported {
                r matches Err(m) && m@ == tick_mismatch_message(env@, instance@, reported, expected)
            } else {
                r == Ok::<Option<u32>, String>(Some(expected))
            },
            None => r == Ok::<Option<u32>, String>(Some(reported)),
        },
{
    match current {
        Some(expected) => {
            if expected != reported {
                let mut m = String::new();
                push_str(&mut m, "env '");
                push_str(&mut m, env);
                push_str(&mut m, "' requires matching tick durations, but instance '");
                push_str(&mut m, instance);
                push_str(&mut m, "' reports ");
                push_dec(&mut m, reported as u64);
                push_str(&mut m, "us and another member reports ");
                push_dec(&mut m, expected as u64);
                push_str(&mut m, "us");
                assert(m@ =~= tick_mismatch_message(env@, instance@, reported, expected));
                Err(m)
            } else {
                Ok(Some(expected))
            }
        },
        None => Ok(Some(reported)),
    }
}

/// The tick duration of the env, once every instance reported.
pub fn require_tick_duration(env: &str, merged: Option<u32>) -> (r: Result<u32, String>)
    ensures
        match merged {
            Some(t) => r == Ok::<u32, String>(t),
            None => r matches Err(m) && m@ == no_tick_message(env@),
        },
{
    match merged {
        Some(t) => Ok(t),
        None => {
            let mut m = String::new();
            push_str(&mut m, "env '");
            push_str(&mut m, env);
            push_str(&mut m, "' must define at least one instance with a valid tick duration");
            assert(m@ =~= no_tick_message(env@));
            Err(m)
        },
    }
}

/// The settings of an env CAN bus: FD when any member is, and the highest
/// bitrates of its members.
#[derive(Clone, Copy, Debug)]
pub struct EnvBusSettings {
    pub fd_capable: bool,
    pub bitrate: u32,
    pub bitrate_data: u32,
}

/// The buses an instance reported, under its name; a later report of the
/// same instance replaces an earlier one.
pub open spec fn registry_index(registries: Seq<(String, Vec<CanBusData>)>, instance: Seq<char>) -> Option<int> {
    if exists|i: int| 0 <= i < registries.len() && registries[i].0@ == instance {
        Some(choose|i: int| 0 <= i < registries.len() && registries[i].0@ == instance
            && forall|j: int| i < j < registries.len() ==> registries[j].0@ != instance)
    } else {
        None
    }
}

/// The first bus named `name` among `buses`.
pub open spec fn bus_index(buses: Seq<CanBusData>, name: Seq<char>) -> Option<int> {
    if exists|i: int| 0 <= i < buses.len() && buses[i].name@ == name {
        Some(choose|i: int| 0 <= i < buses.len() && buses[i].name@ == name
            && forall|j: int| 0 <= j < i ==> buses[j].name@ != name)
    } else {
        None
    }
}

/// An (instance, bus) pair as text.
pub type MemberKey = (Seq<char>, Seq<char>);

/// The message for a member whose instance reported no buses.
pub open spec fn missing_registry_message(instance: Seq<char>) -> Seq<char> {
    "missing CAN bus registry for instance '"@ + instance + "'"@
}

/// The message for a member naming a bus its instance does not have.
pub open spec fn missing_member_bus_message(env_bus: Seq<char>, instance: Seq<char>, bus: Seq<char>) -> Seq<char> {
    "env CAN bus '"@ + env_bus + "' references missing bus '"@ + instance + ":"@ + bus + "'"@
}

/// The message for an instance bus joined to two env buses.
pub open spec fn attached_twice_message(instance: Seq<char>, bus: Seq<char>) -> Seq<char> {
    "instance '"@ + instance + ":"@ + bus + "' is attached to multiple env CAN buses"@
}

/// One member taken into an env bus's settings: its instance's bus found,
/// combined, and joined, or the message of its fault.
#[verifier::opaque]
pub open spec fn plan_step(
    registries: Seq<(String, Vec<CanBusData>)>,
    env_bus: Seq<char>,
    member: EnvCanBusMemberSpec,
    s: EnvBusSettings,
    att: Seq<MemberKey>,
) -> Result<(EnvBusSettings, Seq<MemberKey>), Seq<char>> {
    match registry_index(registries, member.instance_name@) {
        None => Err(missing_registry_message(member.instance_name@)),
        Some(r) => match bus_index(registries[r].1@, member.bus_name@) {
            None => Err(missing_member_bus_message(env_bus, member.instance_name@, member.bus_name@)),
            Some(b) => {
                let meta = registries[r].1@[b];
                let s2 = EnvBusSettings {
                    fd_capable: s.fd_capable || meta.fd_capable,
                    bitrate: if meta.bitrate > s.bitrate { meta.bitrate } else { s.bitrate },
                    bitrate_data: if meta.bitrate_data > s.bitrate_data { meta.bitrate_data } else { s.bitrate_data },
                };
                let key = (member.instance_name@, member.bus_name@);
                if att.contains(key) {
                    Err(attached_twice_message(member.instance_name@, member.bus_name@))
                } else {
                    Ok((s2, att.push(key)))
                }
            },
        },
    }
}

/// The settings and the members joined so far after the first `n` members
/// of env bus `env_bus`, starting from the members `attached` before it, or
/// the message of the first fault.
pub open spec fn plan_after(
    registries: Seq<(String, Vec<CanBusData>)>,
    env_bus: Seq<char>,
    members: Seq<EnvCanBusMemberSpec>,
    attached: Seq<MemberKey>,
    n: int,
) -> Result<(EnvBusSettings, Seq<MemberKey>), Seq<char>>
    decreases n,
{
    if n <= 0 {
        Ok((EnvBusSettings { fd_capable: false, bitrate: 0, bitrate_data: 0 }, attached))
    } else {
        match plan_after(registries, env_bus, members, attached, n - 1) {
            Err(m) => Err(m),
            Ok((s, att)) => plan_step(registries, env_bus, members[n - 1], s, att),
        }
    }
}

/// Once planning a bus failed, it stays failed with the same message.
proof fn lemma_plan_err_sticks(
    registries: Seq<(String, Vec<CanBusData>)>,
    env_bus: Seq<char>,
    members: Seq<EnvCanBusMemberSpec>,
    attached: Seq<MemberKey>,
    k: int,
    n: int,
)
    requires
        0 <= k <= n,
        plan_after(registries, env_bus, members, attached, k) is Err,
    ensures
        plan_after(registries, env_bus, members, attached, n) == plan_after(registries, env_bus, members, attached, k),
    decreases n - k,
{
    if n > k {
        lemma_plan_err_sticks(registries, env_bus, members, attached, k, n - 1);
    }
}

/// The pairs as text.
pub open spec fn member_keys(pairs: Seq<(String, String)>) -> Seq<MemberKey> {
    pairs.map_values(|p: (String, String)| (p.0@, p.1@))
}

/// Finds the last report of `instance`.
fn find_registry(registries: &[(String, Vec<CanBusData>)], instance: &str) -> (r: Option<usize>)
    ensures
        match r {
            Some(i) => i < registries@.len() && registry_index(registries@, instance@) == Some(i as int),
            None => registry_index(registries@, instance@) is None,
        },
{
    let mut i: usize = registries.len();
    while i > 0
        invariant
            i <= registries@.len(),
            forall|j: int| i <= j < registries@.len() ==> registries@[j].0@ != instance@,
        decreases i,
    {
        i = i - 1;
        if crate::sim::validation::same_text(registries[i].0.as_str(), instance) {
            proof {
                let c = choose|c: int| 0 <= c < registries@.len() && registries@[c].0@ == instance@
                    && forall|j: int| c < j < registries@.len() ==> registries@[j].0@ != instance@;
                assert(0 <= i < registries@.len() && registries@[i as int].0@ == instance@
                    && forall|j: int| i < j < registries@.len() ==> registries@[j].0@ != instance@);
                if c < i {
                    assert(registries@[i as int].0@ != instance@);
                } else if c > i {
                    assert(registries@[c].0@ != instance@);
                }
            }
            return Some(i);
        }
    }
    None
}

/// Finds the first bus named `name`.
fn find_bus(buses: &[CanBusData], name: &str) -> (r: Option<usize>)
    ensures
        match r {
            Some(i) => i < buses@.len() && bus_index(buses@, name@) == Some(i as int),
            None => bus_index(buses@, name@) is None,
        },
{
    let mut i: usize = 0;
    while i < buses.len()
        invariant
            i <= buses@.len(),
            forall|j: int| 0 <= j < i ==> buses@[j].name@ != name@,
        decreases buses@.len() - i,
    {
        if crate::sim::validation::same_text(buses[i].name.as_str(), name) {
            proof {
                let c = choose|c: int| 0 <= c < buses@.len() && buses@[c].name@ == name@
                    && forall|j: int| 0 <= j < c ==> buses@[j].name@ != name@;
                assert(0 <= i < buses@.len() && buses@[i as int].name@ == name@
                    && forall|j: int| 0 <= j < i ==> buses@[j].name@ != name@);
                if c < i {
                    assert(buses@[c].name@ != name@);
                } else if c > i {
                    assert(buses@[i as int].name@ != name@);
                }
            }
            return Some(i);
        }
        i = i + 1;
    }
    None
}

/// Whether the pair is among those joined.
fn is_attached(attached: &Vec<(String, String)>, instance: &str, bus: &str) -> (r: bool)
    ensures
        r == member_keys(attached@).contains((instance@, bus@)),
{
    let mut i: usize = 0;
    while i < attached.len()
        invariant
            i <= attached@.len(),
            forall|j: int| 0 <= j < i ==> member_keys(attached@)[j] != (instance@, bus@),
        decreases attached@.len() - i,
    {
        if crate::sim::validation::same_text(attached[i].0.as_str(), instance)
            && crate::sim::validation::same_text(attached[i].1.as_str(), bus)
        {
            assert(member_keys(attached@)[i as int] == (instance@, bus@));
            return true;
        }
        i = i + 1;
    }
    false
}

/// Takes one member into an env bus's settings.
fn plan_member(
    registries: &[(String, Vec<CanBusData>)],
    env_bus: &str,
    member: &EnvCanBusMemberSpec,
    settings: EnvBusSettings,
    attached: &mut Vec<(String, String)>,
) -> (r: Result<EnvBusSettings, String>)
    ensures
        match plan_step(registries@, env_bus@, *member, settings, member_keys(old(attached)@)) {
            Ok((s, att)) => r == Ok::<EnvBusSettings, String>(s) && member_keys(final(attached)@) == att,
            Err(m) => r matches Err(e) && e@ == m,
        },
{
    reveal(plan_step);
    let r = match find_registry(registries, member.instance_name.as_str()) {
        Some(r) => r,
        None => {
            let mut m = String::new();
            push_str(&mut m, "missing CAN bus registry for instance '");
            push_str(&mut m, member.instance_name.as_str());
            push_str(&mut m, "'");
            assert(m@ =~= missing_registry_message(member.instance_name@));
            return Err(m);
        },
    };
    let b = match find_bus(registries[r].1.as_slice(), member.bus_name.as_str()) {
        Some(b) => b,
        None => {
            let mut m = String::new();
            push_str(&mut m, "env CAN bus '");
            push_str(&mut m, env_bus);
            push_str(&mut m, "' references missing bus '");
            push_str(&mut m, member.instance_name.as_str());
            push_str(&mut m, ":");
            push_str(&mut m, member.bus_name.as_str());
            push_str(&mut m, "'");
            assert(m@ =~= missing_member_bus_message(env_bus@, member.instance_name@, member.bus_name@));
            return Err(m);
        },
    };
    let meta = &registries[r].1[b];
    let next = EnvBusSettings {
        fd_capable: settings.fd_capable || meta.fd_capable,
        bitrate: if meta.bitrate > settings.bitrate { meta.bitrate } else { settings.bitrate },
        bitrate_data: if meta.bitrate_data > settings.bitrate_data { meta.bitrate_data } else { settings.bitrate_data },
    };
    if is_attached(attached, member.instance_name.as_str(), member.bus_name.as_str()) {
        let mut m = String::new();
        push_str(&mut m, "instance '");
        push_str(&mut m, member.instance_name.as_str());
        push_str(&mut m, ":");
        push_str(&mut m, member.bus_name.as_str());
        push_str(&mut m, "' is attached to multiple env CAN buses");
        assert(m@ =~= attached_twice_message(member.instance_name@, member.bus_name@));
        return Err(m);
    }
    let ghost before = attached@;
    attached.push((member.instance_name.clone(), member.bus_name.clone()));
    proof {
        assert(member_keys(attached@) =~= member_keys(before).push((member.instance_name@, member.bus_name@)));
    }
    Ok(next)
}

/// Settles an env CAN bus from the buses its members' instances reported,
/// member by member: FD when any member is, the highest bitrates, and each
/// instance bus joined to one env bus only. `attached` holds the members of
/// the env buses settled before and gains this bus's members.
pub fn plan_env_can_bus(
    registries: &[(String, Vec<CanBusData>)],
    env_bus: &str,
    members: &[EnvCanBusMemberSpec],
    attached: &mut Vec<(String, String)>,
) -> (r: Result<EnvBusSettings, String>)
    ensures
        match plan_after(registries@, env_bus@, members@, member_keys(old(attached)@), members@.len() as int) {
            Ok((s, att)) => r == Ok::<EnvBusSettings, String>(s) && member_keys(final(attached)@) == att,
            Err(m) => r matches Err(e) && e@ == m,
        },
{
    let ghost start = member_keys(attached@);
    let mut settings = EnvBusSettings { fd_capable: false, bitrate: 0, bitrate_data: 0 };
    let mut k: usize = 0;
    while k < members.len()
        invariant
            k <= members@.len(),
            start == member_keys(old(attached)@),
            plan_after(registries@, env_bus@, members@, start, k as int)
                == Ok::<(EnvBusSettings, Seq<MemberKey>), Seq<char>>((settings, member_keys(attached@))),
        decreases members@.len() - k,
    {
        let ghost keys = member_keys(attached@);
        proof {
            assert(plan_after(registries@, env_bus@, members@, start, k + 1)
                == plan_step(registries@, env_bus@, members@[k as int], settings, keys));
        }
        match plan_member(registries, env_bus, &members[k], settings, attached) {
            Ok(next) => {
                settings = next;
            },
            Err(m) => {
                proof {
                    lemma_plan_err_sticks(registries@, env_bus@, members@, start, k + 1, members@.len() as int);
                }
                return Err(m);
            },
        }
        k = k + 1;
    }
    Ok(settings)
}

} // verus!
