//! CAN FD data length codes and the bit timing profiles of FD channels.
use vstd::prelude::*;
use crate::text::{dec, push_dec, push_str};

verus! {

/// The payload length a CAN FD data length code stands for.
pub open spec fn dlc_len(dlc: u8) -> Option<u8> {
    if dlc <= 8 {
        Some(dlc)
    } else if dlc == 9 {
        Some(12u8)
    } else if dlc == 10 {
        Some(16u8)
    } else if dlc == 11 {
        Some(20u8)
    } else if dlc == 12 {
        Some(24u8)
    } else if dlc == 13 {
        Some(32u8)
    } else if dlc == 14 {
        Some(48u8)
    } else if dlc == 15 {
        Some(64u8)
    } else {
        None
    }
}

/// The data length code of a CAN FD payload length, where it has one.
pub open spec fn len_dlc(len: u8) -> Option<u8> {
    if len <= 8 {
        Some(len)
    } else if len == 12 {
        Some(9u8)
    } else if len == 16 {
        Some(10u8)
    } else if len == 20 {
        Some(11u8)
    } else if len == 24 {
        Some(12u8)
    } else if len == 32 {
        Some(13u8)
    } else if len == 48 {
        Some(14u8)
    } else if len == 64 {
        Some(15u8)
    } else {
        None
    }
}

/// The payload length of a CAN FD data length code.
pub fn fd_dlc_to_len(dlc: u8) -> (r: Result<u8, String>)
    ensures
        match dlc_len(dlc) {
            Some(len) => r == Ok::<u8, String>(len),
            None => r matches Err(m) && m@ == "invalid PEAK CAN FD DLC "@ + dec(dlc as nat),
        },
{
    if dlc <= 8 {
        Ok(dlc)
    } else if dlc == 9 {
        Ok(12)
    } else if dlc == 10 {
        Ok(16)
    } else if dlc == 11 {
        Ok(20)
    } else if dlc == 12 {
        Ok(24)
    } else if dlc == 13 {
        Ok(32)
    } else if dlc == 14 {
        Ok(48)
    } else if dlc == 15 {
        Ok(64)
    } else {
        let mut m = String::new();
        push_str(&mut m, "invalid PEAK CAN FD DLC ");
        push_dec(&mut m, dlc as u64);
        Err(m)
    }
}

/// The data length code of a CAN FD payload length.
pub fn fd_len_to_dlc(len: u8) -> (r: Result<u8, String>)
    ensures
        match len_dlc(len) {
            Some(dlc) => r == Ok::<u8, String>(dlc),
            None => r matches Err(m) && m@ == "invalid PEAK CAN FD payload length "@ + dec(len as nat),
        },
{
    if len <= 8 {
        Ok(len)
    } else if len == 12 {
        Ok(9)
    } else if len == 16 {
        Ok(10)
    } else if len == 20 {
        Ok(11)
    } else if len == 24 {
        Ok(12)
    } else if len == 32 {
        Ok(13)
    } else if len == 48 {
        Ok(14)
    } else if len == 64 {
        Ok(15)
    } else {
        let mut m = String::new();
        push_str(&mut m, "invalid PEAK CAN FD payload length ");
        push_dec(&mut m, len as u64);
        Err(m)
    }
}

/// Data length codes and payload lengths correspond one to one: every code
/// up to 15 has a length whose code it is, and every length with a code is
/// the length of that code.
pub proof fn lemma_dlc_len_roundtrip(dlc: u8, len: u8)
    ensures
        dlc <= 15 ==> (dlc_len(dlc) matches Some(l) && len_dlc(l) == Some(dlc)),
        len_dlc(len) matches Some(d) ==> dlc_len(d) == Some(len),
{
}

/// The payload lengths CAN FD allows beyond 8 bytes.
pub open spec fn fd_long_length(l: u8) -> bool {
    l == 12 || l == 16 || l == 20 || l == 24 || l == 32 || l == 48 || l == 64
}

/// The shape of the CAN FD length table: every code up to 15 has a length
/// and no other code has one; codes up to 8 stand for that many bytes; the
/// lengths strictly increase with the code; and codes 9 to 15 stand for the
/// seven longer FD lengths 12, 16, 20, 24, 32, 48 and 64, which, increasing,
/// fixes each of them.
pub proof fn lemma_dlc_table_shape(d1: u8, d2: u8)
    ensures
        d1 <= 15 <==> dlc_len(d1) is Some,
        d1 <= 8 ==> dlc_len(d1) == Some(d1),
        9 <= d1 <= 15 ==> fd_long_length(dlc_len(d1).unwrap()),
        d1 < d2 <= 15 ==> dlc_len(d1).unwrap() < dlc_len(d2).unwrap(),
        len_dlc(d1) is Some <==> (d1 <= 8 || fd_long_length(d1)),
{
}

/// The bit timing profile a CAN FD channel is opened with, for the
/// nominal and data bitrates it supports.
pub open spec fn fd_profile(bitrate: u32, bitrate_data: u32) -> Option<Seq<char>> {
    if bitrate == 250_000 && bitrate_data == 2_000_000 {
        Some("f_clock=80000000,nom_brp=20,nom_tseg1=13,nom_tseg2=2,nom_sjw=1,data_brp=4,data_tseg1=7,data_tseg2=2,data_sjw=1"@)
    } else if bitrate == 500_000 && bitrate_data == 2_000_000 {
        Some("f_clock=80000000,nom_brp=10,nom_tseg1=13,nom_tseg2=2,nom_sjw=1,data_brp=4,data_tseg1=7,data_tseg2=2,data_sjw=1"@)
    } else if bitrate == 500_000 && bitrate_data == 4_000_000 {
        Some("f_clock=80000000,nom_brp=10,nom_tseg1=13,nom_tseg2=2,nom_sjw=1,data_brp=2,data_tseg1=7,data_tseg2=2,data_sjw=1"@)
    } else if bitrate == 1_000_000 && bitrate_data == 2_000_000 {
        Some("f_clock=80000000,nom_brp=5,nom_tseg1=13,nom_tseg2=2,nom_sjw=1,data_brp=4,data_tseg1=7,data_tseg2=2,data_sjw=1"@)
    } else {
        None
    }
}

/// The bit timing profile for a pair of bitrates, or why there is none.
pub fn fd_bitrate_profile(bitrate: u32, bitrate_data: u32) -> (r: Result<&'static str, String>)
    ensures
        match fd_profile(bitrate, bitrate_data) {
            Some(p) => r matches Ok(s) && s@ == p,
            None => r matches Err(m) && m@ == "unsupported PEAK CAN FD bitrate pair nominal="@ + dec(bitrate as nat)
                + " data="@ + dec(bitrate_data as nat) + "; add a supported profile"@,
        },
{
    if bitrate == 250_000 && bitrate_data == 2_000_000 {
        Ok("f_clock=80000000,nom_brp=20,nom_tseg1=13,nom_tseg2=2,nom_sjw=1,data_brp=4,data_tseg1=7,data_tseg2=2,data_sjw=1")
    } else if bitrate == 500_000 && bitrate_data == 2_000_000 {
        Ok("f_clock=80000000,nom_brp=10,nom_tseg1=13,nom_tseg2=2,nom_sjw=1,data_brp=4,data_tseg1=7,data_tseg2=2,data_sjw=1")
    } else if bitrate == 500_000 && bitrate_data == 4_000_000 {
        Ok("f_clock=80000000,nom_brp=10,nom_tseg1=13,nom_tseg2=2,nom_sjw=1,data_brp=2,data_tseg1=7,data_tseg2=2,data_sjw=1")
    } else if bitrate == 1_000_000 && bitrate_data == 2_000_000 {
        Ok("f_clock=80000000,nom_brp=5,nom_tseg1=13,nom_tseg2=2,nom_sjw=1,data_brp=4,data_tseg1=7,data_tseg2=2,data_sjw=1")
    } else {
        let mut m = String::new();
        push_str(&mut m, "unsupported PEAK CAN FD bitrate pair nominal=");
        push_dec(&mut m, bitrate as u64);
        push_str(&mut m, " data=");
        push_dec(&mut m, bitrate_data as u64);
        push_str(&mut m, "; add a supported profile");
        Err(m)
    }
}

} // verus!
