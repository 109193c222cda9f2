//! Constants of the library, as bits of the signed 9.23 format, and the
//! arctangent table of the rotation kernel.
use vstd::prelude::*;

verus! {

/// The bits of e, rounded down.
pub const E_BITS: i64 = 22802600;

/// The bits of log2(e), rounded down.
pub const LOG2_E_BITS: i64 = 12102203;

/// The bits of pi, rounded down.
pub const PI_BITS: i64 = 26353589;

/// The bits of 2 pi, rounded down.
pub const TWO_PI_BITS: i64 = 52707178;

/// The bits of pi / 2, rounded down.
pub const FRAC_PI_2_BITS: i64 = 13176794;

/// The bits of pi / 4, rounded down.
pub const FRAC_PI_4_BITS: i64 = 6588397;

/// The bits of 1 / 1.6467607021331787, the reciprocal of the rotation
/// kernel's gain, rounded to nearest.
pub const GAIN_INV_BITS: i64 = 0x004D_BA75;

/// Entries in the arctangent table.
pub const ARCTAN_LEN: u32 = 32;

/// `arctan(2^-i)` for `i < 32`, as bits of the unsigned format with 128
/// fractional bits, rounded to nearest.
pub open spec fn arctan_table(i: u32) -> u128 {
    match i {
        0 => 0xC90FDAA2_2168C000_00000000_00000000,
        1 => 0x76B19C15_86ED3C00_00000000_00000000,
        2 => 0x3EB6EBF2_5901BA00_00000000_00000000,
        3 => 0x1FD5BA9A_AC2F6E00_00000000_00000000,
        4 => 0x0FFAADDB_967EF500_00000000_00000000,
        5 => 0x07FF556E_EA5D8940_00000000_00000000,
        6 => 0x03FFEAAB_776E5360_00000000_00000000,
        7 => 0x01FFFD55_5BBBA970_00000000_00000000,
        8 => 0x00FFFFAA_AADDDDB8_00000000_00000000,
        9 => 0x007FFFF5_5556EEF0_00000000_00000000,
        10 => 0x003FFFFE_AAAAB778_00000000_00000000,
        11 => 0x001FFFFF_D55555BC_00000000_00000000,
        12 => 0x000FFFFF_FAAAAAAE_00000000_00000000,
        13 => 0x0007FFFF_FF555555_80000000_00000000,
        14 => 0x0003FFFF_FFEAAAAA_A0000000_00000000,
        15 => 0x0001FFFF_FFFD5555_50000000_00000000,
        16 => 0x0000FFFF_FFFFAAAA_A8000000_00000000,
        17 => 0x00007FFF_FFFFF555_54000000_00000000,
        18 => 0x00003FFF_FFFFFEAA_AA000000_00000000,
        19 => 0x00001FFF_FFFFFFD5_55000000_00000000,
        20 => 0x00000FFF_FFFFFFFA_AA800000_00000000,
        21 => 0x000007FF_FFFFFFFF_55400000_00000000,
        22 => 0x000003FF_FFFFFFFF_EAA00000_00000000,
        23 => 0x000001FF_FFFFFFFF_FD500000_00000000,
        24 => 0x000000FF_FFFFFFFF_FFA80000_00000000,
        25 => 0x0000007F_FFFFFFFF_FFF40000_00000000,
        26 => 0x0000003F_FFFFFFFF_FFFE0000_00000000,
        27 => 0x00000020_00000000_00000000_00000000,
        28 => 0x00000010_00000000_00000000_00000000,
        29 => 0x00000008_00000000_00000000_00000000,
        30 => 0x00000004_00000000_00000000_00000000,
        _ => 0x00000002_00000000_00000000_00000000,
    }
}

/// Entry `i` of the arctangent table.
pub fn arctan_angle(i: u32) -> (r: u128)
    requires
        i < ARCTAN_LEN,
    ensures
        r == arctan_table(i),
{
    match i {
        0 => 0xC90FDAA2_2168C000_00000000_00000000,
        1 => 0x76B19C15_86ED3C00_00000000_00000000,
        2 => 0x3EB6EBF2_5901BA00_00000000_00000000,
        3 => 0x1FD5BA9A_AC2F6E00_00000000_00000000,
        4 => 0x0FFAADDB_967EF500_00000000_00000000,
        5 => 0x07FF556E_EA5D8940_00000000_00000000,
        6 => 0x03FFEAAB_776E5360_00000000_00000000,
        7 => 0x01FFFD55_5BBBA970_00000000_00000000,
        8 => 0x00FFFFAA_AADDDDB8_00000000_00000000,
        9 => 0x007FFFF5_5556EEF0_00000000_00000000,
        10 => 0x003FFFFE_AAAAB778_00000000_00000000,
        11 => 0x001FFFFF_D55555BC_00000000_00000000,
        12 => 0x000FFFFF_FAAAAAAE_00000000_00000000,
        13 => 0x0007FFFF_FF555555_80000000_00000000,
        14 => 0x0003FFFF_FFEAAAAA_A0000000_00000000,
        15 => 0x0001FFFF_FFFD5555_50000000_00000000,
        16 => 0x0000FFFF_FFFFAAAA_A8000000_00000000,
        17 => 0x00007FFF_FFFFF555_54000000_00000000,
        18 => 0x00003FFF_FFFFFEAA_AA000000_00000000,
        19 => 0x00001FFF_FFFFFFD5_55000000_00000000,
        20 => 0x00000FFF_FFFFFFFA_AA800000_00000000,
        21 => 0x000007FF_FFFFFFFF_55400000_00000000,
        22 => 0x000003FF_FFFFFFFF_EAA00000_00000000,
        23 => 0x000001FF_FFFFFFFF_FD500000_00000000,
        24 => 0x000000FF_FFFFFFFF_FFA80000_00000000,
        25 => 0x0000007F_FFFFFFFF_FFF40000_00000000,
        26 => 0x0000003F_FFFFFFFF_FFFE0000_00000000,
        27 => 0x00000020_00000000_00000000_00000000,
        28 => 0x00000010_00000000_00000000_00000000,
        29 => 0x00000008_00000000_00000000_00000000,
        30 => 0x00000004_00000000_00000000_00000000,
        _ => 0x00000002_00000000_00000000_00000000,
    }
}

} // verus!
