//! Data exchanged between the command line, the daemons and their clients.
use vstd::prelude::*;
use crate::sim::types::{SignalType, SimCanFrame};
use crate::text::{dec, push_dec, push_str};

verus! {

/// Whether simulated time runs on its own.
#[derive(Clone, Copy, Debug, PartialEq, Eq, Structural)]
pub enum TimeStateData {
    Paused,
    Running,
}

/// A signal of one instance.
#[derive(Clone, Debug)]
pub struct SignalData {
    pub id: u32,
    pub name: String,
    pub signal_type: SignalType,
    pub units: Option<String>,
}

/// A signal of an env, with the instance it belongs to.
#[derive(Clone, Debug)]
pub struct EnvSignalData {
    pub instance: String,
    pub local_id: u32,
    pub name: String,
    pub signal_type: SignalType,
    pub units: Option<String>,
}

/// An instance as listed to clients.
#[derive(Clone, Debug)]
pub struct InstanceInfoData {
    pub name: String,
    pub socket_path: String,
    pub running: bool,
    pub env: Option<String>,
}

/// A CAN bus as listed to clients.
#[derive(Clone, Debug)]
pub struct CanBusData {
    pub id: u32,
    pub name: String,
    pub bitrate: u32,
    pub bitrate_data: u32,
    pub fd_capable: bool,
    pub attached_iface: Option<String>,
}

/// A frame as carried between processes: its payload bytes only.
#[derive(Clone, Debug, PartialEq, Eq)]
pub struct CanFrameWireData {
    pub arb_id: u32,
    pub len: u8,
    pub flags: u8,
    pub data: Vec<u8>,
}

/// The frames seen on one bus.
#[derive(Clone, Debug)]
pub struct CanBusFramesData {
    pub bus_name: String,
    pub frames: Vec<CanFrameWireData>,
}

/// A CAN schedule as listed to clients.
#[derive(Clone, Debug)]
pub struct CanScheduleData {
    pub job_id: String,
    pub bus: String,
    pub arb_id: u32,
    pub data_hex: String,
    pub flags: u8,
    pub every_ticks: u64,
    pub next_due_tick: u64,
    pub enabled: bool,
}

/// A shared-state channel as listed to clients.
#[derive(Clone, Debug)]
pub struct SharedChannelData {
    pub id: u32,
    pub name: String,
    pub slot_count: u32,
}

/// The kinds of recipe steps.
#[derive(Clone, Copy, Debug, PartialEq, Eq)]
pub enum RecipeStepKindData {
    SetValues,
    Step,
    Print,
    Speed,
    Reset,
    Sleep,
    Assert,
    ForIteration,
}

/// What one recipe step did.
#[derive(Clone, Debug)]
pub struct RecipeStepResultData {
    pub kind: RecipeStepKindData,
    pub instance: Option<String>,
    pub detail: String,
}

impl CanFrameWireData {
    /// The wire form of a frame: its header and payload.
    pub fn from_frame(frame: &SimCanFrame) -> (r: CanFrameWireData)
        ensures
            r.arb_id == frame.arb_id,
            r.len == frame.len,
            r.flags == frame.flags,
            r.data@ == frame.payload_spec(),
    {
        let payload = frame.payload();
        let mut data: Vec<u8> = Vec::new();
        let mut i: usize = 0;
        while i < payload.len()
            invariant
                i <= payload@.len(),
                data@ == payload@.take(i as int),
            decreases payload@.len() - i,
        {
            data.push(payload[i]);
            assert(payload@.take(i + 1) =~= payload@.take(i as int).push(payload@[i as int]));
            i = i + 1;
        }
        assert(payload@.take(payload@.len() as int) =~= payload@);
        CanFrameWireData { arb_id: frame.arb_id, len: frame.len, flags: frame.flags, data }
    }
}

/// The frame a wire frame stands for: its payload, zero-padded to 64 bytes.
pub open spec fn frame_of_wire(w: CanFrameWireData, f: SimCanFrame) -> bool {
    &&& f.arb_id == w.arb_id
    &&& f.len == w.len
    &&& f.flags == w.flags
    &&& f.data@.len() == 64
    &&& f.data@.take(w.data@.len() as int) == w.data@
    &&& forall|i: int| w.data@.len() <= i < 64 ==> #[trigger] f.data@[i] == 0
}

impl SimCanFrame {
    /// Reads a wire frame: at most 64 payload bytes, as many as its length says.
    pub fn try_from_wire(value: CanFrameWireData) -> (r: Result<SimCanFrame, String>)
        ensures
            value.data@.len() > 64 ==> (r matches Err(m) && m@ == "CAN frame payload exceeds 64 bytes ("@
                + dec(value.data@.len()) + " bytes provided)"@),
            value.data@.len() <= 64 && value.len != value.data@.len() ==> (r matches Err(m) && m@
                == "CAN frame length "@ + dec(value.len as nat) + " does not match payload size "@ + dec(
                value.data@.len(),
            )),
            value.data@.len() <= 64 && value.len == value.data@.len() ==> (r matches Ok(f) && frame_of_wire(value, f)),
    {
        let n = value.data.len();
        if n > 64 {
            let mut m = String::new();
            push_str(&mut m, "CAN frame payload exceeds 64 bytes (");
            push_dec(&mut m, n as u64);
            push_str(&mut m, " bytes provided)");
            return Err(m);
        }
        let mut data = [0u8; 64];
        let mut i: usize = 0;
        while i < n
            invariant
                n == value.data@.len(),
                n <= 64,
                i <= n,
                data@.len() == 64,
                forall|j: int| 0 <= j < i ==> data@[j] == value.data@[j],
                forall|j: int| i <= j < 64 ==> #[trigger] data@[j] == 0,
            decreases n - i,
        {
            data[i] = value.data[i];
            i = i + 1;
        }
        if value.len as usize != n {
            let mut m = String::new();
            push_str(&mut m, "CAN frame length ");
            push_dec(&mut m, value.len as u64);
            push_str(&mut m, " does not match payload size ");
            push_dec(&mut m, n as u64);
            return Err(m);
        }
        let f = SimCanFrame { arb_id: value.arb_id, len: value.len, flags: value.flags, data };
        assert(f.data@.take(n as int) =~= value.data@);
        Ok(f)
    }
}

/// A frame whose length is at most 64 and whose bytes past its length are
/// zero survives the trip to wire form and back unchanged.
pub proof fn lemma_wire_roundtrip(f: SimCanFrame, w: CanFrameWireData, g: SimCanFrame)
    requires
        f.len <= 64,
        f.data@.len() == 64,
        forall|i: int| f.len <= i < 64 ==> #[trigger] f.data@[i] == 0,
        w.arb_id == f.arb_id && w.len == f.len && w.flags == f.flags && w.data@ == f.payload_spec(),
        frame_of_wire(w, g),
    ensures
        g.arb_id == f.arb_id,
        g.len == f.len,
        g.flags == f.flags,
        g.data@ == f.data@,
{
    assert forall|i: int| 0 <= i < 64 implies g.data@[i] == f.data@[i] by {
        if i < f.len {
            assert(g.data@.take(w.data@.len() as int)[i] == w.data@[i]);
        }
    }
    assert(g.data@ =~= f.data@);
}

} // verus!
