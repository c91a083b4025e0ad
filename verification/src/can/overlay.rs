//! The signals a DBC file defines for a bus, checked and keyed by name.
use vstd::prelude::*;
use crate::can::dbc::{
    check_dbc_message, check_dbc_signal, dbc_message_fault, dbc_signal_fault, frame_key, frame_key_spec, ByteOrder,
    DbcSignalLayout, ValueType,
};
use crate::sim::validation::same_text;

verus! {

/// A range bound of a DBC signal as the file writes it; a fraction is held
/// as the bit pattern of its 64-bit float.
#[derive(Clone, Copy, Debug, PartialEq, Eq)]
pub enum DbcNumber {
    Uint(u64),
    Int(i64),
    Double(u64),
}

/// How a DBC signal takes part in multiplexing.
#[derive(Clone, Copy, Debug, PartialEq, Eq)]
pub enum DbcMultiplex {
    Multiplexor,
    MultiplexedSignal(u64),
    MultiplexorAndMultiplexedSignal(u64),
    Plain,
}

/// Whether a signal is plain, neither a multiplexer nor multiplexed.
pub fn is_plain(m: DbcMultiplex) -> (r: bool)
    ensures
        r == (m is Plain),
{
    match m {
        DbcMultiplex::Plain => true,
        _ => false,
    }
}

/// A signal of a DBC file, as far as the overlay reads it; factor and
/// offset are the bit patterns of their 64-bit floats.
#[derive(Clone, Debug)]
pub struct DbcSignalText {
    pub name: String,
    pub multiplex: DbcMultiplex,
    pub start_bit: u64,
    pub size: u64,
    pub byte_order: ByteOrder,
    pub value_type: ValueType,
    pub factor_bits: u64,
    pub offset_bits: u64,
    pub min: DbcNumber,
    pub max: DbcNumber,
    pub unit: String,
}

/// A message of a DBC file: its id, name, payload size and signals.
#[derive(Clone, Debug)]
pub struct DbcMessageText {
    pub id: u32,
    pub extended: bool,
    pub name: String,
    pub size: u64,
    pub signals: Vec<DbcSignalText>,
}

/// What a DBC text parses to: its messages, or the parser's message; a name
/// for what `can_dbc` gives.
pub uninterp spec fn dbc_messages(content: Seq<char>) -> Result<Seq<DbcMessageText>, Seq<char>>;

#[verifier::external_type_specification]
#[verifier::external_body]
pub struct ExDbcMessage(can_dbc::Message);

#[verifier::external_type_specification]
#[verifier::external_body]
pub struct ExDbcSignal(can_dbc::Signal);

/// Copies the multiplexer indicator of a `can_dbc::Signal`, one variant for
/// each of its variants; nothing is claimed of it.
#[verifier::external_body]
fn signal_multiplex(s: &can_dbc::Signal) -> (r: DbcMultiplex) {
    match s.multiplexer_indicator {
        can_dbc::MultiplexIndicator::Multiplexor => DbcMultiplex::Multiplexor,
        can_dbc::MultiplexIndicator::MultiplexedSignal(v) => DbcMultiplex::MultiplexedSignal(v),
        can_dbc::MultiplexIndicator::MultiplexorAndMultiplexedSignal(v) => DbcMultiplex::MultiplexorAndMultiplexedSignal(v),
        can_dbc::MultiplexIndicator::Plain => DbcMultiplex::Plain,
    }
}

/// Copies a `can_dbc::Signal` into plain values; nothing is claimed of it.
#[verifier::external_body]
fn signal_text(s: can_dbc::Signal) -> (r: DbcSignalText) {
    let number = |v: can_dbc::NumericValue| match v {
        can_dbc::NumericValue::Uint(x) => DbcNumber::Uint(x),
        can_dbc::NumericValue::Int(x) => DbcNumber::Int(x),
        can_dbc::NumericValue::Double(x) => DbcNumber::Double(x.to_bits()),
    };
    DbcSignalText {
        multiplex: signal_multiplex(&s),
        byte_order: match s.byte_order { can_dbc::ByteOrder::LittleEndian => ByteOrder::LittleEndian, can_dbc::ByteOrder::BigEndian => ByteOrder::BigEndian },
        value_type: match s.value_type { can_dbc::ValueType::Signed => ValueType::Signed, can_dbc::ValueType::Unsigned => ValueType::Unsigned },
        factor_bits: s.factor.to_bits(), offset_bits: s.offset.to_bits(), min: number(s.min), max: number(s.max),
        name: s.name, start_bit: s.start_bit, size: s.size, unit: s.unit,
    }
}

/// Copies a `can_dbc::Message` into plain values; nothing is claimed of it.
#[verifier::external_body]
fn message_text(m: can_dbc::Message) -> (r: DbcMessageText) {
    let (id, extended) = match m.id {
        can_dbc::MessageId::Standard(id) => (u32::from(id), false),
        can_dbc::MessageId::Extended(id) => (id, true),
    };
    DbcMessageText { id, extended, name: m.name, size: m.size, signals: m.signals.into_iter().map(signal_text).collect() }
}

/// Parses a DBC text with `can_dbc::Dbc::try_from`; the contract claims only
/// that the outcome is the one the text determines.
#[verifier::external_body]
fn parse_dbc(content: &str) -> (r: Result<Vec<DbcMessageText>, String>)
    ensures
        match r {
            Ok(v) => dbc_messages(content@) == Ok::<Seq<DbcMessageText>, Seq<char>>(v@),
            Err(e) => dbc_messages(content@) == Err::<Seq<DbcMessageText>, Seq<char>>(e@),
        },
{
    match can_dbc::Dbc::try_from(content) {
        Ok(dbc) => Ok(dbc.messages.into_iter().map(message_text).collect()),
        Err(err) => Err(err.to_string()),
    }
}

/// A signal of the overlay: its bit layout, scaling and unit.
#[derive(Clone, Debug)]
pub struct DbcSignalDef {
    pub layout: DbcSignalLayout,
    pub factor_bits: u64,
    pub offset_bits: u64,
    pub min: DbcNumber,
    pub max: DbcNumber,
    pub unit: Option<String>,
}

/// `d` is the overlay entry for signal `s` of message `m`.
pub open spec fn def_of(m: DbcMessageText, s: DbcSignalText, d: DbcSignalDef) -> bool {
    &&& d.layout.name@ == s.name@
    &&& d.layout.frame_key == frame_key_spec(m.id, m.extended)
    &&& d.layout.arb_id == m.id
    &&& d.layout.extended == m.extended
    &&& d.layout.message_size as int == m.size
    &&& d.layout.start_bit == s.start_bit
    &&& d.layout.size == s.size
    &&& d.layout.byte_order == s.byte_order
    &&& d.layout.value_type == s.value_type
    &&& d.factor_bits == s.factor_bits
    &&& d.offset_bits == s.offset_bits
    &&& d.min == s.min
    &&& d.max == s.max
    &&& if s.unit@.len() == 0 { d.unit is None } else { d.unit matches Some(u) && u@ == s.unit@ }
}

/// A message and all its signals pass the checks.
pub open spec fn message_ok(m: DbcMessageText) -> bool {
    &&& dbc_message_fault(m.name@, m.size) is None
    &&& forall|j: int| 0 <= j < m.signals@.len() ==> (#[trigger] dbc_signal_fault(m.name@, m.signals@[j].name@, (m.signals@[j].multiplex is Plain), m.signals@[j].size)) is None
}

/// The first failing check of message `m`, when every check before it passed.
pub open spec fn message_first_fault(m: DbcMessageText, e: Seq<char>) -> bool {
    ||| dbc_message_fault(m.name@, m.size) == Some(e)
    ||| (dbc_message_fault(m.name@, m.size) is None && exists|j: int| 0 <= j < m.signals@.len()
        && (forall|l: int| 0 <= l < j ==> (#[trigger] dbc_signal_fault(m.name@, m.signals@[l].name@, (m.signals@[l].multiplex is Plain), m.signals@[l].size)) is None)
        && dbc_signal_fault(m.name@, m.signals@[j].name@, (m.signals@[j].multiplex is Plain), m.signals@[j].size) == Some(e))
}

/// The signals a DBC file defines for a bus, message by message.
pub struct DbcBusOverlay {
    messages: Vec<Vec<DbcSignalDef>>,
}

impl View for DbcBusOverlay {
    type V = Seq<Seq<DbcSignalDef>>;

    closed spec fn view(&self) -> Seq<Seq<DbcSignalDef>> {
        self.messages@.map_values(|v: Vec<DbcSignalDef>| v@)
    }
}

/// The overlay holds one entry per signal of each message.
pub open spec fn overlay_of(msgs: Seq<DbcMessageText>, defs: Seq<Seq<DbcSignalDef>>) -> bool {
    &&& defs.len() == msgs.len()
    &&& forall|i: int| 0 <= i < msgs.len() ==> (#[trigger] defs[i]).len() == msgs[i].signals@.len()
    &&& forall|i: int, j: int| 0 <= i < msgs.len() && 0 <= j < msgs[i].signals@.len() ==> def_of(msgs[i], msgs[i].signals@[j], #[trigger] defs[i][j])
}

/// What building an overlay from messages gives: every entry when all
/// checks pass, else the first failing check in file order.
pub open spec fn overlay_outcome(msgs: Seq<DbcMessageText>, r: Result<DbcBusOverlay, String>) -> bool {
    match r {
        Ok(o) => (forall|i: int| 0 <= i < msgs.len() ==> #[trigger] message_ok(msgs[i])) && overlay_of(msgs, o@),
        Err(e) => exists|i: int| 0 <= i < msgs.len() && (forall|k: int| 0 <= k < i ==> #[trigger] message_ok(msgs[k]))
            && #[trigger] message_first_fault(msgs[i], e@),
    }
}

/// Some signal of the overlay has that name.
pub open spec fn name_defined(defs: Seq<Seq<DbcSignalDef>>, n: Seq<char>) -> bool {
    exists|i: int, j: int| 0 <= i < defs.len() && 0 <= j < defs[i].len() && (#[trigger] defs[i][j]).layout.name@ == n
}

/// The name is in the list.
pub open spec fn name_listed(names: Seq<String>, n: Seq<char>) -> bool {
    exists|k: int| 0 <= k < names.len() && (#[trigger] names[k])@ == n
}

/// Position `(i2, j2)` comes after `(i, j)` in file order.
pub open spec fn after(i: int, j: int, i2: int, j2: int) -> bool {
    i2 > i || (i2 == i && j2 > j)
}

fn signal_def(m: &DbcMessageText, s: &DbcSignalText) -> (d: DbcSignalDef)
    requires
        m.size <= 255,
    ensures
        def_of(*m, *s, d),
{
    let unit = if s.unit.as_str().is_empty() { None } else { Some(s.unit.clone()) };
    DbcSignalDef {
        layout: DbcSignalLayout {
            name: s.name.clone(),
            frame_key: frame_key(m.id, m.extended),
            arb_id: m.id,
            extended: m.extended,
            message_size: m.size as u8,
            start_bit: s.start_bit,
            size: s.size,
            byte_order: s.byte_order,
            value_type: s.value_type,
        },
        factor_bits: s.factor_bits,
        offset_bits: s.offset_bits,
        min: s.min,
        max: s.max,
        unit,
    }
}

impl DbcBusOverlay {
    /// Checks the messages of a DBC file in order and keeps their signals.
    pub fn from_messages(msgs: &[DbcMessageText]) -> (r: Result<DbcBusOverlay, String>)
        ensures
            overlay_outcome(msgs@, r),
    {
        let mut out: Vec<Vec<DbcSignalDef>> = Vec::new();
        let mut i: usize = 0;
        while i < msgs.len()
            invariant
                i <= msgs@.len(),
                out@.len() == i,
                forall|k: int| 0 <= k < i ==> #[trigger] message_ok(msgs@[k]),
                forall|k: int| 0 <= k < i ==> (#[trigger] out@[k])@.len() == msgs@[k].signals@.len(),
                forall|k: int, j: int| 0 <= k < i && 0 <= j < msgs@[k].signals@.len() ==> def_of(msgs@[k], msgs@[k].signals@[j], #[trigger] out@[k]@[j]),
            decreases msgs@.len() - i,
        {
            let m = &msgs[i];
            match check_dbc_message(m.name.as_str(), m.size) {
                Err(e) => {
                    assert(message_first_fault(msgs@[i as int], e@));
                    assert(exists|x: int| 0 <= x < msgs@.len() && (forall|k: int| 0 <= k < x ==> #[trigger] message_ok(msgs@[k]))
                        && #[trigger] message_first_fault(msgs@[x], e@));
                    let r: Result<DbcBusOverlay, String> = Err(e);
                    assert(r matches Err(ee) && ee@ == e@);
                    assert(overlay_outcome(msgs@, r));
                    return r;
                },
                Ok(_) => {},
            }
            let mut defs: Vec<DbcSignalDef> = Vec::new();
            let mut j: usize = 0;
            while j < m.signals.len()
                invariant
                    i < msgs@.len(),
                    *m == msgs@[i as int],
                    forall|k: int| 0 <= k < i ==> #[trigger] message_ok(msgs@[k]),
                    m.size <= 64,
                    dbc_message_fault(m.name@, m.size) is None,
                    j <= m.signals@.len(),
                    defs@.len() == j,
                    forall|l: int| 0 <= l < j ==> (#[trigger] dbc_signal_fault(m.name@, m.signals@[l].name@, (m.signals@[l].multiplex is Plain), m.signals@[l].size)) is None,
                    forall|l: int| 0 <= l < j ==> def_of(*m, m.signals@[l], #[trigger] defs@[l]),
                decreases m.signals@.len() - j,
            {
                let s = &m.signals[j];
                match check_dbc_signal(m.name.as_str(), s.name.as_str(), is_plain(s.multiplex), s.size) {
                    Err(e) => {
                        assert(message_first_fault(msgs@[i as int], e@)) by {
                            assert(0 <= j < m.signals@.len());
                        }
                        assert(exists|x: int| 0 <= x < msgs@.len() && (forall|k: int| 0 <= k < x ==> #[trigger] message_ok(msgs@[k]))
                            && #[trigger] message_first_fault(msgs@[x], e@));
                        let r: Result<DbcBusOverlay, String> = Err(e);
                        assert(r matches Err(ee) && ee@ == e@);
                        assert(overlay_outcome(msgs@, r));
                        return r;
                    },
                    Ok(()) => {},
                }
                defs.push(signal_def(m, s));
                j = j + 1;
            }
            out.push(defs);
            i = i + 1;
        }
        let o = DbcBusOverlay { messages: out };
        assert(o@.len() == msgs@.len());
        assert forall|k: int| 0 <= k < msgs@.len() implies (#[trigger] o@[k]).len() == msgs@[k].signals@.len() by {
            assert(o@[k] == out@[k]@);
        }
        assert forall|k: int, j: int| 0 <= k < msgs@.len() && 0 <= j < msgs@[k].signals@.len() implies def_of(msgs@[k], msgs@[k].signals@[j], #[trigger] o@[k][j]) by {
            assert(o@[k] == out@[k]@);
        }
        Ok(o)
    }

    /// Parses a DBC text and builds the overlay of its messages; a parse
    /// failure is reported with the path the text was read from.
    pub fn from_text(content: &str, path: &str) -> (r: Result<DbcBusOverlay, String>)
        ensures
            match dbc_messages(content@) {
                Ok(msgs) => overlay_outcome(msgs, r),
                Err(e) => r matches Err(m) && m@ == "failed to parse DBC '"@ + path@ + "': "@ + e,
            },
    {
        match parse_dbc(content) {
            Ok(msgs) => DbcBusOverlay::from_messages(msgs.as_slice()),
            Err(e) => {
                let mut m = String::new();
                crate::text::push_str(&mut m, "failed to parse DBC '");
                crate::text::push_str(&mut m, path);
                crate::text::push_str(&mut m, "': ");
                crate::text::push_str(&mut m, e.as_str());
                assert(m@ =~= "failed to parse DBC '"@ + path@ + "': "@ + e@);
                Err(m)
            },
        }
    }

    /// The names of the overlay's signals, each once, in file order.
    pub fn signal_names(&self) -> (r: Vec<String>)
        ensures
            forall|a: int, b: int| 0 <= a < b < r@.len() ==> (#[trigger] r@[a])@ != (#[trigger] r@[b])@,
            forall|k: int| 0 <= k < r@.len() ==> name_defined(self@, (#[trigger] r@[k])@),
            forall|i: int, j: int| 0 <= i < self@.len() && 0 <= j < self@[i].len() ==> name_listed(r@, (#[trigger] self@[i][j]).layout.name@),
    {
        let mut names: Vec<String> = Vec::new();
        let mut i: usize = 0;
        while i < self.messages.len()
            invariant
                i <= self@.len(),
                self@.len() == self.messages@.len(),
                forall|k: int| 0 <= k < self@.len() ==> #[trigger] self@[k] == self.messages@[k]@,
                forall|a: int, b: int| 0 <= a < b < names@.len() ==> (#[trigger] names@[a])@ != (#[trigger] names@[b])@,
                forall|k: int| 0 <= k < names@.len() ==> name_defined(self@, (#[trigger] names@[k])@),
                forall|ii: int, jj: int| 0 <= ii < i && 0 <= jj < self@[ii].len() ==> name_listed(names@, (#[trigger] self@[ii][jj]).layout.name@),
            decreases self@.len() - i,
        {
            let defs = &self.messages[i];
            let mut j: usize = 0;
            while j < defs.len()
                invariant
                    i < self@.len(),
                    self@.len() == self.messages@.len(),
                    forall|k: int| 0 <= k < self@.len() ==> #[trigger] self@[k] == self.messages@[k]@,
                    *defs == self.messages@[i as int],
                    j <= defs@.len(),
                    forall|a: int, b: int| 0 <= a < b < names@.len() ==> (#[trigger] names@[a])@ != (#[trigger] names@[b])@,
                    forall|k: int| 0 <= k < names@.len() ==> name_defined(self@, (#[trigger] names@[k])@),
                    forall|ii: int, jj: int| 0 <= ii < i && 0 <= jj < self@[ii].len() ==> name_listed(names@, (#[trigger] self@[ii][jj]).layout.name@),
                    forall|jj: int| 0 <= jj < j ==> name_listed(names@, (#[trigger] defs@[jj]).layout.name@),
                decreases defs@.len() - j,
            {
                let name = defs[j].layout.name.as_str();
                proof {
                    assert(self@[i as int] == defs@);
                    assert(self@[i as int][j as int] == defs@[j as int]);
                }
                let mut seen = false;
                let mut k: usize = 0;
                while k < names.len()
                    invariant
                        k <= names@.len(),
                        !seen ==> forall|x: int| 0 <= x < k ==> (#[trigger] names@[x])@ != name@,
                        seen ==> name_listed(names@, name@),
                    decreases names@.len() - k,
                {
                    if same_text(names[k].as_str(), name) {
                        seen = true;
                        assert(names@[k as int]@ == name@);
                    }
                    k = k + 1;
                }
                let ghost before = names@;
                if !seen {
                    names.push(defs[j].layout.name.clone());
                    proof {
                        assert(names@[before.len() as int]@ == name@);
                        assert forall|a: int, b: int| 0 <= a < b < names@.len() implies (#[trigger] names@[a])@ != (#[trigger] names@[b])@ by {
                            if b == before.len() {
                                assert(names@[a] == before[a]);
                            } else {
                                assert(names@[a] == before[a] && names@[b] == before[b]);
                            }
                        }
                        assert forall|x: int| 0 <= x < names@.len() implies name_defined(self@, (#[trigger] names@[x])@) by {
                            if x == before.len() {
                                assert(self@[i as int][j as int].layout.name@ == names@[x]@);
                            } else {
                                assert(names@[x] == before[x]);
                            }
                        }
                        assert forall|n: Seq<char>| name_listed(before, n) implies name_listed(names@, n) by {
                            let x = choose|x: int| 0 <= x < before.len() && (#[trigger] before[x])@ == n;
                            assert(names@[x] == before[x]);
                        }
                        assert(name_listed(names@, name@));
                    }
                }
                proof {
                    assert(name_listed(names@, defs@[j as int].layout.name@));
                    assert forall|jj: int| 0 <= jj < j + 1 implies name_listed(names@, (#[trigger] defs@[jj]).layout.name@) by {
                        if jj < j {
                            assert(name_listed(before, defs@[jj].layout.name@));
                        }
                    }
                    assert forall|ii: int, jj: int| 0 <= ii < i && 0 <= jj < self@[ii].len() implies name_listed(names@, (#[trigger] self@[ii][jj]).layout.name@) by {
                        assert(name_listed(before, self@[ii][jj].layout.name@));
                    }
                }
                j = j + 1;
            }
            proof {
                assert forall|ii: int, jj: int| 0 <= ii < i + 1 && 0 <= jj < self@[ii].len() implies name_listed(names@, (#[trigger] self@[ii][jj]).layout.name@) by {
                    if ii == i {
                        assert(self@[ii] == defs@);
                        assert(self@[ii][jj] == defs@[jj]);
                    }
                }
            }
            i = i + 1;
        }
        names
    }

    /// The signal of that name; when several share it, the last in file order.
    pub fn signal(&self, name: &str) -> (r: Option<&DbcSignalDef>)
        ensures
            r matches Some(d) ==> exists|i: int, j: int|
                0 <= i < self@.len() && 0 <= j < self@[i].len() && #[trigger] self@[i][j] == *d && d.layout.name@ == name@
                && forall|i2: int, j2: int| 0 <= i2 < self@.len() && 0 <= j2 < self@[i2].len() && after(i, j, i2, j2)
                    ==> (#[trigger] self@[i2][j2]).layout.name@ != name@,
            r is None ==> forall|i: int, j: int| 0 <= i < self@.len() && 0 <= j < self@[i].len()
                ==> (#[trigger] self@[i][j]).layout.name@ != name@,
    {
        let mut i: usize = self.messages.len();
        while i > 0
            invariant
                i <= self@.len(),
                self@.len() == self.messages@.len(),
                forall|k: int| 0 <= k < self@.len() ==> #[trigger] self@[k] == self.messages@[k]@,
                forall|i2: int, j2: int| i <= i2 < self@.len() && 0 <= j2 < self@[i2].len()
                    ==> (#[trigger] self@[i2][j2]).layout.name@ != name@,
            decreases i,
        {
            let defs = &self.messages[i - 1];
            let mut j: usize = defs.len();
            while j > 0
                invariant
                    0 < i <= self@.len(),
                    self@.len() == self.messages@.len(),
                    forall|k: int| 0 <= k < self@.len() ==> #[trigger] self@[k] == self.messages@[k]@,
                    *defs == self.messages@[i - 1],
                    j <= defs@.len(),
                    forall|i2: int, j2: int| i <= i2 < self@.len() && 0 <= j2 < self@[i2].len()
                        ==> (#[trigger] self@[i2][j2]).layout.name@ != name@,
                    forall|j2: int| j <= j2 < defs@.len() ==> (#[trigger] defs@[j2]).layout.name@ != name@,
                decreases j,
            {
                if same_text(defs[j - 1].layout.name.as_str(), name) {
                    let d = &defs[j - 1];
                    proof {
                        let ii = i - 1;
                        let jj = j - 1;
                        assert(self@[ii as int] == defs@);
                        assert(self@[ii as int][jj as int] == *d);
                        assert forall|i2: int, j2: int| 0 <= i2 < self@.len() && 0 <= j2 < self@[i2].len() && after(ii as int, jj as int, i2, j2)
                            implies (#[trigger] self@[i2][j2]).layout.name@ != name@ by {
                            if i2 == ii {
                                assert(self@[i2][j2] == defs@[j2]);
                            }
                        }
                    }
                    return Some(d);
                }
                j = j - 1;
            }
            proof {
                assert forall|j2: int| 0 <= j2 < self@[i - 1].len() implies (#[trigger] self@[i - 1][j2]).layout.name@ != name@ by {
                    assert(self@[i - 1] == defs@);
                    assert(self@[i - 1][j2] == defs@[j2]);
                }
            }
            i = i - 1;
        }
        None
    }
}

} // verus!
