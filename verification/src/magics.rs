//! Magic numbers: multipliers that send every set of blockers of a rook or a bishop to a slot of
//! its own.
use vstd::prelude::*;

use crate::geometry;
use crate::types;
use crate::types::PieceType;

verus! {

/// The mask, the multiplier, the shift and the offset of one square.
pub type MagicRow = (u64, u64, u32, usize);

/// The magic numbers of a rook, square by square.
pub const ROOK_MAGICS: [MagicRow; 64] = [
    (0x000101010101017E, 0x1080018022704002, 52, 0),
    (0x000202020202027C, 0x8B4000A005900840, 53, 4096),
    (0x000404040404047A, 0x09000A4100200012, 53, 6144),
    (0x0008080808080876, 0x0200100408402200, 53, 8192),
    (0x001010101010106E, 0x0600020020083064, 53, 10240),
    (0x002020202020205E, 0x0100020100040008, 53, 12288),
    (0x004040404040403E, 0x0600010450881200, 53, 14336),
    (0x008080808080807E, 0x8100028208412100, 52, 16384),
    (0x0001010101017E00, 0x2001800040008021, 53, 20480),
    (0x0002020202027C00, 0x0000C02010004001, 54, 22528),
    (0x0004040404047A00, 0x0001002000401104, 54, 23552),
    (0x0008080808087600, 0x1201002008100104, 54, 24576),
    (0x0010101010106E00, 0x0904808008000400, 54, 25600),
    (0x0020202020205E00, 0x4004800400020080, 54, 26624),
    (0x0040404040403E00, 0x040A0002000801C4, 54, 27648),
    (0x0080808080807E00, 0x1D020001084408A2, 53, 28672),
    (0x00010101017E0100, 0x41400080088A4620, 53, 30720),
    (0x00020202027C0200, 0x0C50004000200040, 54, 32768),
    (0x00040404047A0400, 0x0042020010804020, 54, 33792),
    (0x0008080808760800, 0x0400210008100104, 54, 34816),
    (0x00101010106E1000, 0x0828808004000800, 54, 35840),
    (0x00202020205E2000, 0x0600808002000400, 54, 36864),
    (0x00404040403E4000, 0x42010C0010090208, 54, 37888),
    (0x00808080807E8000, 0x0208020000408924, 53, 38912),
    (0x000101017E010100, 0x0040400080009020, 53, 40960),
    (0x000202027C020200, 0x1040008080200042, 54, 43008),
    (0x000404047A040400, 0x000A820200122240, 54, 44032),
    (0x0008080876080800, 0x0010040040080040, 54, 45056),
    (0x001010106E101000, 0x0208008080040008, 54, 46080),
    (0x002020205E202000, 0x5800200801041040, 54, 47104),
    (0x004040403E404000, 0x0806004200410804, 54, 48128),
    (0x008080807E808000, 0x4812004200041081, 53, 49152),
    (0x0001017E01010100, 0x2040204000800080, 53, 51200),
    (0x0002027C02020200, 0x20400C4081002501, 54, 53248),
    (0x0004047A04040400, 0x0010002000801881, 54, 54272),
    (0x0008087608080800, 0x1000801000800800, 54, 55296),
    (0x0010106E10101000, 0x8004800800800401, 54, 56320),
    (0x0020205E20202000, 0x1800800400800200, 54, 57344),
    (0x0040403E40404000, 0x8219000401000200, 54, 58368),
    (0x0080807E80808000, 0x000008410200008C, 53, 59392),
    (0x00017E0101010100, 0x0640802840008000, 53, 61440),
    (0x00027C0202020200, 0x3000201000404000, 54, 63488),
    (0x00047A0404040400, 0x9020220088420011, 54, 64512),
    (0x0008760808080800, 0x20920041110A0020, 54, 65536),
    (0x00106E1010101000, 0x0A04000800808006, 54, 66560),
    (0x00205E2020202000, 0x8400020004008080, 54, 67584),
    (0x00403E4040404000, 0x0089081002040081, 54, 68608),
    (0x00807E8080808000, 0x0401008044020001, 53, 69632),
    (0x007E010101010100, 0x0400800040002080, 53, 71680),
    (0x007C020202020200, 0x82400042211A8100, 54, 73728),
    (0x007A040404040400, 0x0410008010200080, 54, 74752),
    (0x0076080808080800, 0x3080080010008080, 54, 75776),
    (0x006E101010101000, 0x0080080004008080, 54, 76800),
    (0x005E202020202000, 0x0282020080040080, 54, 77824),
    (0x003E404040404000, 0x0000100108820400, 54, 78848),
    (0x007E808080808000, 0x0091340080410200, 53, 79872),
    (0x7E01010101010100, 0x0082800020430013, 52, 81920),
    (0x7C02020202020200, 0x0208408012002102, 53, 86016),
    (0x7A04040404040400, 0x0464220008401282, 53, 88064),
    (0x7608080808080800, 0x2100041000082101, 53, 90112),
    (0x6E10101010101000, 0x0402000409605002, 53, 92160),
    (0x5E20202020202000, 0x2005004882040001, 53, 94208),
    (0x3E40404040404000, 0x1040409008410204, 53, 96256),
    (0x7E80808080808000, 0x0800408849040022, 52, 98304),
];

/// The magic numbers of a bishop, square by square.
pub const BISHOP_MAGICS: [MagicRow; 64] = [
    (0x0040201008040200, 0x4041620809010010, 58, 0),
    (0x0000402010080400, 0x0010500101202102, 59, 64),
    (0x0000004020100A00, 0x024202004108001A, 59, 96),
    (0x0000000040221400, 0x0108260040011000, 59, 128),
    (0x0000000002442800, 0x0401104000000000, 59, 160),
    (0x0000000204085000, 0x0822011008062000, 59, 192),
    (0x0000020408102000, 0x10311808020A0002, 59, 224),
    (0x0002040810204000, 0x0030420201014100, 58, 256),
    (0x0020100804020000, 0x0852041082280110, 59, 320),
    (0x0040201008040000, 0x0000A00214011020, 59, 352),
    (0x00004020100A0000, 0x084012241400A450, 59, 384),
    (0x0000004022140000, 0x1300822082000805, 59, 416),
    (0x0000000244280000, 0x01241C10284008C0, 59, 448),
    (0x0000020408500000, 0x00100A2804C02224, 59, 480),
    (0x0002040810200000, 0x00040202411C40A0, 59, 512),
    (0x0004081020400000, 0x0006620202010410, 59, 544),
    (0x0010080402000200, 0x201080A020429090, 59, 576),
    (0x0020100804000400, 0x0015010208280300, 59, 608),
    (0x004020100A000A00, 0x0422040102020202, 57, 640),
    (0x0000402214001400, 0x0208020082830080, 57, 768),
    (0x0000024428002800, 0x0804200202010014, 57, 896),
    (0x0002040850005000, 0x1110200110101000, 57, 1024),
    (0x0004081020002000, 0x0011000401015000, 59, 1152),
    (0x0008102040004000, 0x2001000024010410, 59, 1184),
    (0x0008040200020400, 0x00084000880208C8, 59, 1216),
    (0x0010080400040800, 0x2402280802080820, 59, 1248),
    (0x0020100A000A1000, 0x02080C0006002602, 57, 1280),
    (0x0040221400142200, 0x0002008008008102, 55, 1408),
    (0x0002442800284400, 0x0803010000444000, 55, 1920),
    (0x0004085000500800, 0x0201020008405004, 57, 2432),
    (0x0008102000201000, 0x2844204084821088, 59, 2560),
    (0x0010204000402000, 0x00C0484021010800, 59, 2592),
    (0x0004020002040800, 0x020C10480014A024, 59, 2624),
    (0x0008040004081000, 0x0024040400031040, 59, 2656),
    (0x00100A000A102000, 0x2009040210010804, 57, 2688),
    (0x0022140014224000, 0x8000200800090106, 55, 2816),
    (0x0044280028440200, 0x1811010401420020, 55, 3328),
    (0x0008500050080400, 0x1E05080121020200, 57, 3840),
    (0x0010200020100800, 0x0028820880040894, 59, 3968),
    (0x0020400040201000, 0x010C108200023500, 59, 4000),
    (0x0002000204081000, 0x0050900808C22011, 59, 4032),
    (0x0004000408102000, 0x6520881110110901, 59, 4064),
    (0x000A000A10204000, 0x0007010801080200, 57, 4096),
    (0x0014001422400000, 0x20B0012018043100, 57, 4224),
    (0x0028002844020000, 0x1446082100404405, 57, 4352),
    (0x0050005008040200, 0x4C81020081001200, 57, 4480),
    (0x0020002010080400, 0x1888C80800800044, 59, 4608),
    (0x0040004020100800, 0x0510010101080020, 59, 4640),
    (0x0000020408102000, 0x500400A290100000, 59, 4672),
    (0x0000040810204000, 0xC001006110080008, 59, 4704),
    (0x00000A1020400000, 0x0000020100886140, 59, 4736),
    (0x0000142240000000, 0x0080002042020000, 59, 4768),
    (0x0000284402000000, 0xA000101002088044, 59, 4800),
    (0x0000500804020000, 0x8311100210010302, 59, 4832),
    (0x0000201008040200, 0xC804084204040040, 59, 4864),
    (0x0000402010080400, 0x0009010102160188, 59, 4896),
    (0x0002040810204000, 0x400621004A304004, 58, 4928),
    (0x0004081020400000, 0x8000044C02011000, 59, 4992),
    (0x000A102040000000, 0x1004090080480800, 59, 5024),
    (0x0014224000000000, 0x0001808008460810, 59, 5056),
    (0x0028440200000000, 0xA489500090320880, 59, 5088),
    (0x0050080402000000, 0x8002000450820200, 59, 5120),
    (0x0020100804020000, 0x0200850404280200, 59, 5152),
    (0x0040201008040200, 0x0602040414084202, 58, 5184),
];

/// How many slots the rook's table has.
pub const ROOK_MAP_SIZE: usize = 102400;

/// How many slots the bishop's table has.
pub const BISHOP_MAP_SIZE: usize = 5248;

/// How the blockers around one square are turned into a slot of a table.
#[derive(Copy, Clone, Debug)]
pub struct MagicEntry {
    /// The squares where a blocker makes a difference.
    pub mask: u64,
    /// The multiplier.
    pub magic: u64,
    /// By how many bits the product is shifted down.
    pub shift: u32,
    /// The first slot of the square.
    pub offset: usize,
}

impl MagicEntry {
    /// The entry that a row of the lists of magic numbers stands for.
    pub open spec fn of(row: MagicRow) -> MagicEntry {
        MagicEntry { mask: row.0, magic: row.1, shift: row.2, offset: row.3 }
    }

    /// The entry that a row of the lists of magic numbers stands for.
    pub fn from_row(row: MagicRow) -> (r: MagicEntry)
        ensures
            r == MagicEntry::of(row),
    {
        MagicEntry { mask: row.0, magic: row.1, shift: row.2, offset: row.3 }
    }
}

/// The high bits of the product of the blockers and the multiplier, modulo two to the power of 64.
pub open spec fn hash(occ: u64, e: MagicEntry) -> u64 {
    (((occ & e.mask) * e.magic) as u64) >> e.shift
}

/// The slot for the occupied squares `occ`.
pub open spec fn slot(occ: u64, e: MagicEntry) -> int {
    hash(occ, e) + e.offset
}

/// Looks up which slot belongs to the occupied squares `occ`.
pub fn magic_index(occ: u64, e: &MagicEntry) -> (r: usize)
    requires
        e.shift < 64,
        slot(occ, *e) <= usize::MAX,
    ensures
        r == slot(occ, *e),
{
    let masked: u64 = occ & e.mask;
    let product: u64 = masked.wrapping_mul(e.magic);
    let magic: u64 = e.magic;
    assert(product == (masked * magic) as u64) by (bit_vector)
        requires
            product == (masked * magic) % 0x1_0000_0000_0000_0000,
    ;
    let hash: u64 = product >> e.shift;
    hash as usize + e.offset
}

/// The entry of a rook or of a bishop on square `s`.
pub open spec fn entry(kind: PieceType, s: int) -> MagicEntry {
    if kind is Rook {
        MagicEntry::of(ROOK_MAGICS[s])
    } else {
        MagicEntry::of(BISHOP_MAGICS[s])
    }
}

/// How many slots the table of a rook or of a bishop has.
pub open spec fn map_size(kind: PieceType) -> int {
    if kind is Rook {
        ROOK_MAP_SIZE as int
    } else {
        BISHOP_MAP_SIZE as int
    }
}

/// How many slots belong to one square.
pub open spec fn slots(e: MagicEntry) -> int {
    (1u64 << ((64 - e.shift) as u64)) as int
}

/// Whether a blocker on `t` makes a difference to a rook or a bishop on `s`: the piece reaches
/// `t`, and the line goes on behind `t`.
pub open spec fn relevant(kind: PieceType, s: int, t: int) -> bool {
    let (f, r) = (types::file_of(t), types::rank_of(t));
    let (df, dr) = (geometry::file_step(s, t), geometry::rank_step(s, t));
    if kind is Rook {
        (df == 0 && dr != 0 && 1 <= r <= 6) || (dr == 0 && df != 0 && 1 <= f <= 6)
    } else {
        geometry::abs(df) == geometry::abs(dr) && df != 0 && 1 <= f <= 6 && 1 <= r <= 6
    }
}

} // verus!
