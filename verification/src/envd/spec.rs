//! The description of an env handed to its daemon.
use vstd::prelude::*;
use crate::cli::{CliError, env_member, parse_env_member};
use crate::load::LoadSpec;

verus! {

/// An env: its instances, CAN buses and shared channels.
#[derive(Clone, Debug)]
pub struct EnvSpec {
    pub name: String,
    pub instances: Vec<EnvInstanceSpec>,
    pub can_buses: Vec<EnvCanBusSpec>,
    pub shared_channels: Vec<EnvSharedChannelSpec>,
}

/// An instance of an env and what it loads.
#[derive(Clone, Debug)]
pub struct EnvInstanceSpec {
    pub name: String,
    pub load_spec: LoadSpec,
}

/// A CAN bus of an env.
#[derive(Clone, Debug)]
pub struct EnvCanBusSpec {
    pub name: String,
    pub vcan_iface: String,
    pub dbc_path: Option<String>,
    pub members: Vec<EnvCanBusMemberSpec>,
}

/// An instance's bus joined to an env bus.
#[derive(Clone, Debug)]
pub struct EnvCanBusMemberSpec {
    pub instance_name: String,
    pub bus_name: String,
}

/// A shared channel of an env.
#[derive(Clone, Debug)]
pub struct EnvSharedChannelSpec {
    pub name: String,
    pub writer_instance: String,
    pub members: Vec<EnvSharedChannelMemberSpec>,
}

/// An instance's channel joined to an env channel.
#[derive(Clone, Debug)]
pub struct EnvSharedChannelMemberSpec {
    pub instance_name: String,
    pub channel_name: String,
}

/// The members of an env bus, each `<instance>` or `<instance>:<bus>`;
/// the first malformed one is reported.
pub fn can_bus_members(members: &[String], bus_name: &str) -> (r: Result<Vec<EnvCanBusMemberSpec>, CliError>)
    ensures
        match r {
            Ok(v) => v@.len() == members@.len() && forall|i: int| 0 <= i < v@.len() ==> (#[trigger] env_member(members@[i]@, bus_name@))
                == Ok::<(Seq<char>, Seq<char>), Seq<char>>((v@[i].instance_name@, v@[i].bus_name@)),
            Err(e) => exists|i: int| #![trigger members@[i]] 0 <= i < members@.len() && (forall|j: int| 0 <= j < i ==> (#[trigger] env_member(members@[j]@, bus_name@)) is Ok)
                && (env_member(members@[i]@, bus_name@) matches Err(m) && (e matches CliError::CommandFailed(s) && s@ == m)),
        },
{
    let mut out: Vec<EnvCanBusMemberSpec> = Vec::new();
    let mut i: usize = 0;
    while i < members.len()
        invariant
            i <= members@.len(),
            out@.len() == i,
            forall|k: int| 0 <= k < i ==> (#[trigger] env_member(members@[k]@, bus_name@))
                == Ok::<(Seq<char>, Seq<char>), Seq<char>>((out@[k].instance_name@, out@[k].bus_name@)),
        decreases members@.len() - i,
    {
        match parse_env_member(members[i].as_str(), bus_name) {
            Ok((instance_name, member_bus)) => {
                out.push(EnvCanBusMemberSpec { instance_name, bus_name: member_bus });
            },
            Err(e) => {
                proof {
                    assert(forall|j: int| 0 <= j < i ==> (#[trigger] env_member(members@[j]@, bus_name@)) is Ok);
                }
                return Err(e);
            },
        }
        i = i + 1;
    }
    Ok(out)
}

/// The members of an env shared channel, each `<instance>` or
/// `<instance>:<channel>`; the first malformed one is reported.
pub fn shared_channel_members(members: &[String], channel_name: &str) -> (r: Result<Vec<EnvSharedChannelMemberSpec>, CliError>)
    ensures
        match r {
            Ok(v) => v@.len() == members@.len() && forall|i: int| 0 <= i < v@.len() ==> (#[trigger] env_member(members@[i]@, channel_name@))
                == Ok::<(Seq<char>, Seq<char>), Seq<char>>((v@[i].instance_name@, v@[i].channel_name@)),
            Err(e) => exists|i: int| #![trigger members@[i]] 0 <= i < members@.len() && (forall|j: int| 0 <= j < i ==> (#[trigger] env_member(members@[j]@, channel_name@)) is Ok)
                && (env_member(members@[i]@, channel_name@) matches Err(m) && (e matches CliError::CommandFailed(s) && s@ == m)),
        },
{
    let mut out: Vec<EnvSharedChannelMemberSpec> = Vec::new();
    let mut i: usize = 0;
    while i < members.len()
        invariant
            i <= members@.len(),
            out@.len() == i,
            forall|k: int| 0 <= k < i ==> (#[trigger] env_member(members@[k]@, channel_name@))
                == Ok::<(Seq<char>, Seq<char>), Seq<char>>((out@[k].instance_name@, out@[k].channel_name@)),
        decreases members@.len() - i,
    {
        match parse_env_member(members[i].as_str(), channel_name) {
            Ok((instance_name, member_channel)) => {
                out.push(EnvSharedChannelMemberSpec { instance_name, channel_name: member_channel });
            },
            Err(e) => {
                proof {
                    assert(forall|j: int| 0 <= j < i ==> (#[trigger] env_member(members@[j]@, channel_name@)) is Ok);
                }
                return Err(e);
            },
        }
        i = i + 1;
    }
    Ok(out)
}

} // verus!
