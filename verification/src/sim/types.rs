//! Value types shared between the runtime and a loaded project.
use vstd::prelude::*;

verus! {

pub const CAN_FLAG_EXTENDED: u8 = 1;
pub const CAN_FLAG_FD: u8 = 2;
pub const CAN_FLAG_BRS: u8 = 4;
pub const CAN_FLAG_ESI: u8 = 8;
pub const CAN_FLAG_RTR: u8 = 16;
pub const CAN_FLAG_RESERVED_MASK: u8 = 0xE0;

/// A CAN or CAN FD frame as exchanged with a project.
#[derive(Clone, Copy, Debug)]
pub struct SimCanFrame {
    pub arb_id: u32,
    pub len: u8,
    pub flags: u8,
    pub data: [u8; 64],
}

/// The C layout of a frame.
#[derive(Clone, Copy, Debug)]
pub struct SimCanFrameRaw {
    pub arb_id: u32,
    pub len: u8,
    pub flags: u8,
    pub _pad: [u8; 2],
    pub data: [u8; 64],
}

impl SimCanFrame {
    pub fn to_raw(&self) -> (r: SimCanFrameRaw)
        ensures
            r.arb_id == self.arb_id,
            r.len == self.len,
            r.flags == self.flags,
            r._pad@ == seq![0u8, 0u8],
            r.data@ == self.data@,
    {
        SimCanFrameRaw { arb_id: self.arb_id, len: self.len, flags: self.flags, _pad: [0, 0], data: self.data }
    }

    pub fn from_raw(raw: SimCanFrameRaw) -> (r: Self)
        ensures
            r.arb_id == raw.arb_id,
            r.len == raw.len,
            r.flags == raw.flags,
            r.data@ == raw.data@,
    {
        SimCanFrame { arb_id: raw.arb_id, len: raw.len, flags: raw.flags, data: raw.data }
    }

    /// The first `min(len, 64)` data bytes.
    pub open spec fn payload_spec(&self) -> Seq<u8> {
        self.data@.take(if self.len <= 64 { self.len as int } else { 64 })
    }

    pub fn payload(&self) -> (r: &[u8])
        ensures
            r@ == self.payload_spec(),
    {
        let len: usize = if self.len <= 64 { self.len as usize } else { 64 };
        &self.data.as_slice()[0..len]
    }
}

/// Status codes a project's functions return.
#[derive(Clone, Copy, Debug, PartialEq, Eq)]
pub enum SimStatusRaw {
    Success,
    NotInitialized,
    InvalidArg,
    InvalidSignal,
    TypeMismatch,
    BufferTooSmall,
    Internal,
}

impl SimStatusRaw {
    /// The status a raw code stands for.
    pub open spec fn from_code(value: u32) -> Option<SimStatusRaw> {
        if value == 0 {
            Some(SimStatusRaw::Success)
        } else if value == 1 {
            Some(SimStatusRaw::NotInitialized)
        } else if value == 2 {
            Some(SimStatusRaw::InvalidArg)
        } else if value == 3 {
            Some(SimStatusRaw::InvalidSignal)
        } else if value == 4 {
            Some(SimStatusRaw::TypeMismatch)
        } else if value == 5 {
            Some(SimStatusRaw::BufferTooSmall)
        } else if value == 255 {
            Some(SimStatusRaw::Internal)
        } else {
            None
        }
    }

    pub fn try_from_code(value: u32) -> (r: Option<SimStatusRaw>)
        ensures
            r == Self::from_code(value),
    {
        if value == 0 {
            Some(SimStatusRaw::Success)
        } else if value == 1 {
            Some(SimStatusRaw::NotInitialized)
        } else if value == 2 {
            Some(SimStatusRaw::InvalidArg)
        } else if value == 3 {
            Some(SimStatusRaw::InvalidSignal)
        } else if value == 4 {
            Some(SimStatusRaw::TypeMismatch)
        } else if value == 5 {
            Some(SimStatusRaw::BufferTooSmall)
        } else if value == 255 {
            Some(SimStatusRaw::Internal)
        } else {
            None
        }
    }
}

/// Raw value type codes of the project interface.
#[derive(Clone, Copy, Debug, PartialEq, Eq)]
pub enum SimTypeRaw {
    Bool,
    U32,
    I32,
    F32,
    F64,
}

/// The value types of signals.
#[derive(Clone, Copy, Debug, PartialEq, Eq, Structural)]
pub enum SignalType {
    Bool,
    U32,
    I32,
    F32,
    F64,
}

impl SimTypeRaw {
    pub open spec fn from_code(value: u32) -> Option<SimTypeRaw> {
        if value == 0 {
            Some(SimTypeRaw::Bool)
        } else if value == 1 {
            Some(SimTypeRaw::U32)
        } else if value == 2 {
            Some(SimTypeRaw::I32)
        } else if value == 3 {
            Some(SimTypeRaw::F32)
        } else if value == 4 {
            Some(SimTypeRaw::F64)
        } else {
            None
        }
    }

    pub fn try_from_code(value: u32) -> (r: Option<SimTypeRaw>)
        ensures
            r == Self::from_code(value),
    {
        if value == 0 {
            Some(SimTypeRaw::Bool)
        } else if value == 1 {
            Some(SimTypeRaw::U32)
        } else if value == 2 {
            Some(SimTypeRaw::I32)
        } else if value == 3 {
            Some(SimTypeRaw::F32)
        } else if value == 4 {
            Some(SimTypeRaw::F64)
        } else {
            None
        }
    }

    /// The signal type a raw type code stands for.
    pub fn signal_type(self) -> (r: SignalType)
        ensures
            r == match self {
                SimTypeRaw::Bool => SignalType::Bool,
                SimTypeRaw::U32 => SignalType::U32,
                SimTypeRaw::I32 => SignalType::I32,
                SimTypeRaw::F32 => SignalType::F32,
                SimTypeRaw::F64 => SignalType::F64,
            },
    {
        match self {
            SimTypeRaw::Bool => SignalType::Bool,
            SimTypeRaw::U32 => SignalType::U32,
            SimTypeRaw::I32 => SignalType::I32,
            SimTypeRaw::F32 => SignalType::F32,
            SimTypeRaw::F64 => SignalType::F64,
        }
    }
}

/// The name of a signal type.
pub open spec fn signal_type_name(t: SignalType) -> Seq<char> {
    match t {
        SignalType::Bool => "bool"@,
        SignalType::U32 => "u32"@,
        SignalType::I32 => "i32"@,
        SignalType::F32 => "f32"@,
        SignalType::F64 => "f64"@,
    }
}

impl SignalType {
    /// Reads a signal type from its name.
    pub fn parse(value: &str) -> (r: Option<SignalType>)
        ensures
            r matches Some(t) ==> signal_type_name(t) == value@,
            r is None ==> forall|t: SignalType| signal_type_name(t) != value@,
    {
        let cs = crate::text::str_chars(value);
        let c = cs.as_slice();
        proof {
            reveal_strlit("bool");
            reveal_strlit("u32");
            reveal_strlit("i32");
            reveal_strlit("f32");
            reveal_strlit("f64");
        }
        if c.len() == 4 && c[0] == 'b' && c[1] == 'o' && c[2] == 'o' && c[3] == 'l' {
            assert(cs@ =~= "bool"@);
            Some(SignalType::Bool)
        } else if c.len() == 3 && c[0] == 'u' && c[1] == '3' && c[2] == '2' {
            assert(cs@ =~= "u32"@);
            Some(SignalType::U32)
        } else if c.len() == 3 && c[0] == 'i' && c[1] == '3' && c[2] == '2' {
            assert(cs@ =~= "i32"@);
            Some(SignalType::I32)
        } else if c.len() == 3 && c[0] == 'f' && c[1] == '3' && c[2] == '2' {
            assert(cs@ =~= "f32"@);
            Some(SignalType::F32)
        } else if c.len() == 3 && c[0] == 'f' && c[1] == '6' && c[2] == '4' {
            assert(cs@ =~= "f64"@);
            Some(SignalType::F64)
        } else {
            proof {
                assert forall|t: SignalType| signal_type_name(t) != value@ by {
                    if signal_type_name(t) == value@ {
                        assert(cs@ == signal_type_name(t));
                    }
                }
            }
            None
        }
    }

    /// The name of the type.
    pub fn name(&self) -> (r: &'static str)
        ensures
            r@ == signal_type_name(*self),
    {
        match self {
            SignalType::Bool => "bool",
            SignalType::U32 => "u32",
            SignalType::I32 => "i32",
            SignalType::F32 => "f32",
            SignalType::F64 => "f64",
        }
    }
}

/// A signal a project exports.
#[derive(Clone, Debug)]
pub struct SignalMeta {
    pub id: u32,
    pub name: String,
    pub signal_type: SignalType,
    pub units: Option<String>,
}

/// A CAN bus a project exports.
#[derive(Clone, Debug, PartialEq, Eq)]
pub struct SimCanBusDesc {
    pub id: u32,
    pub name: String,
    pub bitrate: u32,
    pub bitrate_data: u32,
    pub fd_capable: bool,
}

/// A shared-state channel a project exports.
#[derive(Clone, Debug, PartialEq, Eq)]
pub struct SimSharedDesc {
    pub id: u32,
    pub name: String,
    pub slot_count: u32,
}

} // verus!
