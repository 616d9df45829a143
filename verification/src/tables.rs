//! Fixed masks of files and ranks, as words (bit `i` is the square with index `i`).
use vstd::prelude::*;

verus! {

pub const FILE_A: u64 = 0x0101_0101_0101_0101u64;
pub const FILE_B: u64 = 0x0202_0202_0202_0202u64;
pub const FILE_C: u64 = 0x0404_0404_0404_0404u64;
pub const FILE_D: u64 = 0x0808_0808_0808_0808u64;
pub const FILE_E: u64 = 0x1010_1010_1010_1010u64;
pub const FILE_F: u64 = 0x2020_2020_2020_2020u64;
pub const FILE_G: u64 = 0x4040_4040_4040_4040u64;
pub const FILE_H: u64 = 0x8080_8080_8080_8080u64;

pub const NOT_FILE_A: u64 = 0xFEFE_FEFE_FEFE_FEFEu64;
pub const NOT_FILE_AB: u64 = 0xFCFC_FCFC_FCFC_FCFCu64;
pub const NOT_FILE_H: u64 = 0x7F7F_7F7F_7F7F_7F7Fu64;
pub const NOT_FILE_GH: u64 = 0x3F3F_3F3F_3F3F_3F3Fu64;

pub const RANK_1: u64 = 0x0000_0000_0000_00FFu64;
pub const RANK_2: u64 = 0x0000_0000_0000_FF00u64;
pub const RANK_3: u64 = 0x0000_0000_00FF_0000u64;
pub const RANK_4: u64 = 0x0000_0000_FF00_0000u64;
pub const RANK_5: u64 = 0x0000_00FF_0000_0000u64;
pub const RANK_6: u64 = 0x0000_FF00_0000_0000u64;
pub const RANK_7: u64 = 0x00FF_0000_0000_0000u64;
pub const RANK_8: u64 = 0xFF00_0000_0000_0000u64;

} // verus!
