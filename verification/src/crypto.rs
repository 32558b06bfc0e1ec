//! PKware ZIP traditional encryption.
use vstd::prelude::*;

verus! {

/// Length of the encryption check header preceding encrypted entry data.
pub const ENCR_HEADER_LEN: usize = 12;

/// Standard CRC32 lookup table (polynomial 0xEDB88320).
pub const CRC32_TABLE: [u32; 256] = [
    0x00000000, 0x77073096, 0xee0e612c, 0x990951ba, 0x076dc419, 0x706af48f,
    0xe963a535, 0x9e6495a3, 0x0edb8832, 0x79dcb8a4, 0xe0d5e91e, 0x97d2d988,
    0x09b64c2b, 0x7eb17cbd, 0xe7b82d07, 0x90bf1d91, 0x1db71064, 0x6ab020f2,
    0xf3b97148, 0x84be41de, 0x1adad47d, 0x6ddde4eb, 0xf4d4b551, 0x83d385c7,
    0x136c9856, 0x646ba8c0, 0xfd62f97a, 0x8a65c9ec, 0x14015c4f, 0x63066cd9,
    0xfa0f3d63, 0x8d080df5, 0x3b6e20c8, 0x4c69105e, 0xd56041e4, 0xa2677172,
    0x3c03e4d1, 0x4b04d447, 0xd20d85fd, 0xa50ab56b, 0x35b5a8fa, 0x42b2986c,
    0xdbbbc9d6, 0xacbcf940, 0x32d86ce3, 0x45df5c75, 0xdcd60dcf, 0xabd13d59,
    0x26d930ac, 0x51de003a, 0xc8d75180, 0xbfd06116, 0x21b4f4b5, 0x56b3c423,
    0xcfba9599, 0xb8bda50f, 0x2802b89e, 0x5f058808, 0xc60cd9b2, 0xb10be924,
    0x2f6f7c87, 0x58684c11, 0xc1611dab, 0xb6662d3d, 0x76dc4190, 0x01db7106,
    0x98d220bc, 0xefd5102a, 0x71b18589, 0x06b6b51f, 0x9fbfe4a5, 0xe8b8d433,
    0x7807c9a2, 0x0f00f934, 0x9609a88e, 0xe10e9818, 0x7f6a0dbb, 0x086d3d2d,
    0x91646c97, 0xe6635c01, 0x6b6b51f4, 0x1c6c6162, 0x856530d8, 0xf262004e,
    0x6c0695ed, 0x1b01a57b, 0x8208f4c1, 0xf50fc457, 0x65b0d9c6, 0x12b7e950,
    0x8bbeb8ea, 0xfcb9887c, 0x62dd1ddf, 0x15da2d49, 0x8cd37cf3, 0xfbd44c65,
    0x4db26158, 0x3ab551ce, 0xa3bc0074, 0xd4bb30e2, 0x4adfa541, 0x3dd895d7,
    0xa4d1c46d, 0xd3d6f4fb, 0x4369e96a, 0x346ed9fc, 0xad678846, 0xda60b8d0,
    0x44042d73, 0x33031de5, 0xaa0a4c5f, 0xdd0d7cc9, 0x5005713c, 0x270241aa,
    0xbe0b1010, 0xc90c2086, 0x5768b525, 0x206f85b3, 0xb966d409, 0xce61e49f,
    0x5edef90e, 0x29d9c998, 0xb0d09822, 0xc7d7a8b4, 0x59b33d17, 0x2eb40d81,
    0xb7bd5c3b, 0xc0ba6cad, 0xedb88320, 0x9abfb3b6, 0x03b6e20c, 0x74b1d29a,
    0xead54739, 0x9dd277af, 0x04db2615, 0x73dc1683, 0xe3630b12, 0x94643b84,
    0x0d6d6a3e, 0x7a6a5aa8, 0xe40ecf0b, 0x9309ff9d, 0x0a00ae27, 0x7d079eb1,
    0xf00f9344, 0x8708a3d2, 0x1e01f268, 0x6906c2fe, 0xf762575d, 0x806567cb,
    0x196c3671, 0x6e6b06e7, 0xfed41b76, 0x89d32be0, 0x10da7a5a, 0x67dd4acc,
    0xf9b9df6f, 0x8ebeeff9, 0x17b7be43, 0x60b08ed5, 0xd6d6a3e8, 0xa1d1937e,
    0x38d8c2c4, 0x4fdff252, 0xd1bb67f1, 0xa6bc5767, 0x3fb506dd, 0x48b2364b,
    0xd80d2bda, 0xaf0a1b4c, 0x36034af6, 0x41047a60, 0xdf60efc3, 0xa867df55,
    0x316e8eef, 0x4669be79, 0xcb61b38c, 0xbc66831a, 0x256fd2a0, 0x5268e236,
    0xcc0c7795, 0xbb0b4703, 0x220216b9, 0x5505262f, 0xc5ba3bbe, 0xb2bd0b28,
    0x2bb45a92, 0x5cb36a04, 0xc2d7ffa7, 0xb5d0cf31, 0x2cd99e8b, 0x5bdeae1d,
    0x9b64c2b0, 0xec63f226, 0x756aa39c, 0x026d930a, 0x9c0906a9, 0xeb0e363f,
    0x72076785, 0x05005713, 0x95bf4a82, 0xe2b87a14, 0x7bb12bae, 0x0cb61b38,
    0x92d28e9b, 0xe5d5be0d, 0x7cdcefb7, 0x0bdbdf21, 0x86d3d2d4, 0xf1d4e242,
    0x68ddb3f8, 0x1fda836e, 0x81be16cd, 0xf6b9265b, 0x6fb077e1, 0x18b74777,
    0x88085ae6, 0xff0f6a70, 0x66063bca, 0x11010b5c, 0x8f659eff, 0xf862ae69,
    0x616bffd3, 0x166ccf45, 0xa00ae278, 0xd70dd2ee, 0x4e048354, 0x3903b3c2,
    0xa7672661, 0xd06016f7, 0x4969474d, 0x3e6e77db, 0xaed16a4a, 0xd9d65adc,
    0x40df0b66, 0x37d83bf0, 0xa9bcae53, 0xdebb9ec5, 0x47b2cf7f, 0x30b5ffe9,
    0xbdbdf21c, 0xcabac28a, 0x53b39330, 0x24b4a3a6, 0xbad03605, 0xcdd70693,
    0x54de5729, 0x23d967bf, 0xb3667a2e, 0xc4614ab8, 0x5d681b02, 0x2a6f2b94,
    0xb40bbe37, 0xc30c8ea1, 0x5a05df1b, 0x2d02ef8d,
];

/// One step of the reflected CRC-32 division: shift out the lowest bit and
/// subtract the polynomial if that bit was set.
pub open spec fn crc32_shift(c: u32) -> u32 {
    if c & 1 != 0 {
        (c >> 1) ^ 0xEDB88320
    } else {
        c >> 1
    }
}

/// The remainder of an eight-bit value: eight division steps.
#[verifier::opaque]
pub open spec fn crc32_entry(i: u32) -> u32 {
    crc32_shift(
        crc32_shift(
            crc32_shift(
                crc32_shift(crc32_shift(crc32_shift(crc32_shift(crc32_shift(i))))),
            ),
        ),
    )
}

/// The CRC-32 register after one more byte.
pub open spec fn crc32_update(crc: u32, b: u8) -> u32 {
    crc32_entry((crc ^ (b as u32)) & 0xff) ^ (crc >> 8)
}

/// The CRC-32 register after a run of bytes.
pub open spec fn crc32_register(crc: u32, data: Seq<u8>) -> u32
    decreases data.len(),
{
    if data.len() == 0 {
        crc
    } else {
        crc32_update(crc32_register(crc, data.drop_last()), data.last())
    }
}

/// The CRC-32 checksum of `data`: the register starts with all bits set and is
/// inverted at the end.
pub open spec fn crc32_of(data: Seq<u8>) -> u32 {
    !crc32_register(0xffff_ffff, data)
}

/// The remainders of all eight-bit values.
proof fn lemma_crc32_entries()
    by (bit_vector)
    ensures
        crc32_entry(0) == 0x00000000,
        crc32_entry(1) == 0x77073096,
        crc32_entry(2) == 0xee0e612c,
        crc32_entry(3) == 0x990951ba,
        crc32_entry(4) == 0x076dc419,
        crc32_entry(5) == 0x706af48f,
        crc32_entry(6) == 0xe963a535,
        crc32_entry(7) == 0x9e6495a3,
        crc32_entry(8) == 0x0edb8832,
        crc32_entry(9) == 0x79dcb8a4,
        crc32_entry(10) == 0xe0d5e91e,
        crc32_entry(11) == 0x97d2d988,
        crc32_entry(12) == 0x09b64c2b,
        crc32_entry(13) == 0x7eb17cbd,
        crc32_entry(14) == 0xe7b82d07,
        crc32_entry(15) == 0x90bf1d91,
        crc32_entry(16) == 0x1db71064,
        crc32_entry(17) == 0x6ab020f2,
        crc32_entry(18) == 0xf3b97148,
        crc32_entry(19) == 0x84be41de,
        crc32_entry(20) == 0x1adad47d,
        crc32_entry(21) == 0x6ddde4eb,
        crc32_entry(22) == 0xf4d4b551,
        crc32_entry(23) == 0x83d385c7,
        crc32_entry(24) == 0x136c9856,
        crc32_entry(25) == 0x646ba8c0,
        crc32_entry(26) == 0xfd62f97a,
        crc32_entry(27) == 0x8a65c9ec,
        crc32_entry(28) == 0x14015c4f,
        crc32_entry(29) == 0x63066cd9,
        crc32_entry(30) == 0xfa0f3d63,
        crc32_entry(31) == 0x8d080df5,
        crc32_entry(32) == 0x3b6e20c8,
        crc32_entry(33) == 0x4c69105e,
        crc32_entry(34) == 0xd56041e4,
        crc32_entry(35) == 0xa2677172,
        crc32_entry(36) == 0x3c03e4d1,
        crc32_entry(37) == 0x4b04d447,
        crc32_entry(38) == 0xd20d85fd,
        crc32_entry(39) == 0xa50ab56b,
        crc32_entry(40) == 0x35b5a8fa,
        crc32_entry(41) == 0x42b2986c,
        crc32_entry(42) == 0xdbbbc9d6,
        crc32_entry(43) == 0xacbcf940,
        crc32_entry(44) == 0x32d86ce3,
        crc32_entry(45) == 0x45df5c75,
        crc32_entry(46) == 0xdcd60dcf,
        crc32_entry(47) == 0xabd13d59,
        crc32_entry(48) == 0x26d930ac,
        crc32_entry(49) == 0x51de003a,
        crc32_entry(50) == 0xc8d75180,
        crc32_entry(51) == 0xbfd06116,
        crc32_entry(52) == 0x21b4f4b5,
        crc32_entry(53) == 0x56b3c423,
        crc32_entry(54) == 0xcfba9599,
        crc32_entry(55) == 0xb8bda50f,
        crc32_entry(56) == 0x2802b89e,
        crc32_entry(57) == 0x5f058808,
        crc32_entry(58) == 0xc60cd9b2,
        crc32_entry(59) == 0xb10be924,
        crc32_entry(60) == 0x2f6f7c87,
        crc32_entry(61) == 0x58684c11,
        crc32_entry(62) == 0xc1611dab,
        crc32_entry(63) == 0xb6662d3d,
        crc32_entry(64) == 0x76dc4190,
        crc32_entry(65) == 0x01db7106,
        crc32_entry(66) == 0x98d220bc,
        crc32_entry(67) == 0xefd5102a,
        crc32_entry(68) == 0x71b18589,
        crc32_entry(69) == 0x06b6b51f,
        crc32_entry(70) == 0x9fbfe4a5,
        crc32_entry(71) == 0xe8b8d433,
        crc32_entry(72) == 0x7807c9a2,
        crc32_entry(73) == 0x0f00f934,
        crc32_entry(74) == 0x9609a88e,
        crc32_entry(75) == 0xe10e9818,
        crc32_entry(76) == 0x7f6a0dbb,
        crc32_entry(77) == 0x086d3d2d,
        crc32_entry(78) == 0x91646c97,
        crc32_entry(79) == 0xe6635c01,
        crc32_entry(80) == 0x6b6b51f4,
        crc32_entry(81) == 0x1c6c6162,
        crc32_entry(82) == 0x856530d8,
        crc32_entry(83) == 0xf262004e,
        crc32_entry(84) == 0x6c0695ed,
        crc32_entry(85) == 0x1b01a57b,
        crc32_entry(86) == 0x8208f4c1,
        crc32_entry(87) == 0xf50fc457,
        crc32_entry(88) == 0x65b0d9c6,
        crc32_entry(89) == 0x12b7e950,
        crc32_entry(90) == 0x8bbeb8ea,
        crc32_entry(91) == 0xfcb9887c,
        crc32_entry(92) == 0x62dd1ddf,
        crc32_entry(93) == 0x15da2d49,
        crc32_entry(94) == 0x8cd37cf3,
        crc32_entry(95) == 0xfbd44c65,
        crc32_entry(96) == 0x4db26158,
        crc32_entry(97) == 0x3ab551ce,
        crc32_entry(98) == 0xa3bc0074,
        crc32_entry(99) == 0xd4bb30e2,
        crc32_entry(100) == 0x4adfa541,
        crc32_entry(101) == 0x3dd895d7,
        crc32_entry(102) == 0xa4d1c46d,
        crc32_entry(103) == 0xd3d6f4fb,
        crc32_entry(104) == 0x4369e96a,
        crc32_entry(105) == 0x346ed9fc,
        crc32_entry(106) == 0xad678846,
        crc32_entry(107) == 0xda60b8d0,
        crc32_entry(108) == 0x44042d73,
        crc32_entry(109) == 0x33031de5,
        crc32_entry(110) == 0xaa0a4c5f,
        crc32_entry(111) == 0xdd0d7cc9,
        crc32_entry(112) == 0x5005713c,
        crc32_entry(113) == 0x270241aa,
        crc32_entry(114) == 0xbe0b1010,
        crc32_entry(115) == 0xc90c2086,
        crc32_entry(116) == 0x5768b525,
        crc32_entry(117) == 0x206f85b3,
        crc32_entry(118) == 0xb966d409,
        crc32_entry(119) == 0xce61e49f,
        crc32_entry(120) == 0x5edef90e,
        crc32_entry(121) == 0x29d9c998,
        crc32_entry(122) == 0xb0d09822,
        crc32_entry(123) == 0xc7d7a8b4,
        crc32_entry(124) == 0x59b33d17,
        crc32_entry(125) == 0x2eb40d81,
        crc32_entry(126) == 0xb7bd5c3b,
        crc32_entry(127) == 0xc0ba6cad,
        crc32_entry(128) == 0xedb88320,
        crc32_entry(129) == 0x9abfb3b6,
        crc32_entry(130) == 0x03b6e20c,
        crc32_entry(131) == 0x74b1d29a,
        crc32_entry(132) == 0xead54739,
        crc32_entry(133) == 0x9dd277af,
        crc32_entry(134) == 0x04db2615,
        crc32_entry(135) == 0x73dc1683,
        crc32_entry(136) == 0xe3630b12,
        crc32_entry(137) == 0x94643b84,
        crc32_entry(138) == 0x0d6d6a3e,
        crc32_entry(139) == 0x7a6a5aa8,
        crc32_entry(140) == 0xe40ecf0b,
        crc32_entry(141) == 0x9309ff9d,
        crc32_entry(142) == 0x0a00ae27,
        crc32_entry(143) == 0x7d079eb1,
        crc32_entry(144) == 0xf00f9344,
        crc32_entry(145) == 0x8708a3d2,
        crc32_entry(146) == 0x1e01f268,
        crc32_entry(147) == 0x6906c2fe,
        crc32_entry(148) == 0xf762575d,
        crc32_entry(149) == 0x806567cb,
        crc32_entry(150) == 0x196c3671,
        crc32_entry(151) == 0x6e6b06e7,
        crc32_entry(152) == 0xfed41b76,
        crc32_entry(153) == 0x89d32be0,
        crc32_entry(154) == 0x10da7a5a,
        crc32_entry(155) == 0x67dd4acc,
        crc32_entry(156) == 0xf9b9df6f,
        crc32_entry(157) == 0x8ebeeff9,
        crc32_entry(158) == 0x17b7be43,
        crc32_entry(159) == 0x60b08ed5,
        crc32_entry(160) == 0xd6d6a3e8,
        crc32_entry(161) == 0xa1d1937e,
        crc32_entry(162) == 0x38d8c2c4,
        crc32_entry(163) == 0x4fdff252,
        crc32_entry(164) == 0xd1bb67f1,
        crc32_entry(165) == 0xa6bc5767,
        crc32_entry(166) == 0x3fb506dd,
        crc32_entry(167) == 0x48b2364b,
        crc32_entry(168) == 0xd80d2bda,
        crc32_entry(169) == 0xaf0a1b4c,
        crc32_entry(170) == 0x36034af6,
        crc32_entry(171) == 0x41047a60,
        crc32_entry(172) == 0xdf60efc3,
        crc32_entry(173) == 0xa867df55,
        crc32_entry(174) == 0x316e8eef,
        crc32_entry(175) == 0x4669be79,
        crc32_entry(176) == 0xcb61b38c,
        crc32_entry(177) == 0xbc66831a,
        crc32_entry(178) == 0x256fd2a0,
        crc32_entry(179) == 0x5268e236,
        crc32_entry(180) == 0xcc0c7795,
        crc32_entry(181) == 0xbb0b4703,
        crc32_entry(182) == 0x220216b9,
        crc32_entry(183) == 0x5505262f,
        crc32_entry(184) == 0xc5ba3bbe,
        crc32_entry(185) == 0xb2bd0b28,
        crc32_entry(186) == 0x2bb45a92,
        crc32_entry(187) == 0x5cb36a04,
        crc32_entry(188) == 0xc2d7ffa7,
        crc32_entry(189) == 0xb5d0cf31,
        crc32_entry(190) == 0x2cd99e8b,
        crc32_entry(191) == 0x5bdeae1d,
        crc32_entry(192) == 0x9b64c2b0,
        crc32_entry(193) == 0xec63f226,
        crc32_entry(194) == 0x756aa39c,
        crc32_entry(195) == 0x026d930a,
        crc32_entry(196) == 0x9c0906a9,
        crc32_entry(197) == 0xeb0e363f,
        crc32_entry(198) == 0x72076785,
        crc32_entry(199) == 0x05005713,
        crc32_entry(200) == 0x95bf4a82,
        crc32_entry(201) == 0xe2b87a14,
        crc32_entry(202) == 0x7bb12bae,
        crc32_entry(203) == 0x0cb61b38,
        crc32_entry(204) == 0x92d28e9b,
        crc32_entry(205) == 0xe5d5be0d,
        crc32_entry(206) == 0x7cdcefb7,
        crc32_entry(207) == 0x0bdbdf21,
        crc32_entry(208) == 0x86d3d2d4,
        crc32_entry(209) == 0xf1d4e242,
        crc32_entry(210) == 0x68ddb3f8,
        crc32_entry(211) == 0x1fda836e,
        crc32_entry(212) == 0x81be16cd,
        crc32_entry(213) == 0xf6b9265b,
        crc32_entry(214) == 0x6fb077e1,
        crc32_entry(215) == 0x18b74777,
        crc32_entry(216) == 0x88085ae6,
        crc32_entry(217) == 0xff0f6a70,
        crc32_entry(218) == 0x66063bca,
        crc32_entry(219) == 0x11010b5c,
        crc32_entry(220) == 0x8f659eff,
        crc32_entry(221) == 0xf862ae69,
        crc32_entry(222) == 0x616bffd3,
        crc32_entry(223) == 0x166ccf45,
        crc32_entry(224) == 0xa00ae278,
        crc32_entry(225) == 0xd70dd2ee,
        crc32_entry(226) == 0x4e048354,
        crc32_entry(227) == 0x3903b3c2,
        crc32_entry(228) == 0xa7672661,
        crc32_entry(229) == 0xd06016f7,
        crc32_entry(230) == 0x4969474d,
        crc32_entry(231) == 0x3e6e77db,
        crc32_entry(232) == 0xaed16a4a,
        crc32_entry(233) == 0xd9d65adc,
        crc32_entry(234) == 0x40df0b66,
        crc32_entry(235) == 0x37d83bf0,
        crc32_entry(236) == 0xa9bcae53,
        crc32_entry(237) == 0xdebb9ec5,
        crc32_entry(238) == 0x47b2cf7f,
        crc32_entry(239) == 0x30b5ffe9,
        crc32_entry(240) == 0xbdbdf21c,
        crc32_entry(241) == 0xcabac28a,
        crc32_entry(242) == 0x53b39330,
        crc32_entry(243) == 0x24b4a3a6,
        crc32_entry(244) == 0xbad03605,
        crc32_entry(245) == 0xcdd70693,
        crc32_entry(246) == 0x54de5729,
        crc32_entry(247) == 0x23d967bf,
        crc32_entry(248) == 0xb3667a2e,
        crc32_entry(249) == 0xc4614ab8,
        crc32_entry(250) == 0x5d681b02,
        crc32_entry(251) == 0x2a6f2b94,
        crc32_entry(252) == 0xb40bbe37,
        crc32_entry(253) == 0xc30c8ea1,
        crc32_entry(254) == 0x5a05df1b,
        crc32_entry(255) == 0x2d02ef8d,
{
}

/// Every entry of the lookup table is the remainder of its index under the
/// CRC-32 polynomial.
pub proof fn lemma_crc32_table(i: u32)
    requires
        i < 256,
    ensures
        CRC32_TABLE@[i as int] == crc32_entry(i),
{
    lemma_crc32_entries();
}

/// The three cipher keys.
pub struct CipherKeys {
    pub k0: u32,
    pub k1: u32,
    pub k2: u32,
}

/// The keys before any password byte.
pub open spec fn initial_keys() -> CipherKeys {
    CipherKeys { k0: 305419896, k1: 591751049, k2: 878082192 }
}

/// The keys after one plaintext (or password) byte.
#[verifier::opaque]
pub open spec fn next_keys(k: CipherKeys, plain: u8) -> CipherKeys {
    let k0 = crc32_update(k.k0, plain);
    let k1 = k.k1.wrapping_add(k0 & 0xff).wrapping_mul(134775813).wrapping_add(1);
    CipherKeys { k0, k1, k2: crc32_update(k.k2, (k1 >> 24) as u8) }
}

/// The byte that masks the next plaintext byte.
#[verifier::opaque]
pub open spec fn keystream(k: CipherKeys) -> u8 {
    let temp = (k.k2 | 2) as u16;
    (temp.wrapping_mul(temp ^ 1) >> 8) as u8
}

/// The keys after a run of plaintext (or password) bytes.
pub open spec fn keys_after_plain(k: CipherKeys, plain: Seq<u8>) -> CipherKeys
    decreases plain.len(),
{
    if plain.len() == 0 {
        k
    } else {
        next_keys(keys_after_plain(k, plain.drop_last()), plain.last())
    }
}

/// The keys after deciphering a run of ciphertext bytes.
pub open spec fn keys_after_cipher(k: CipherKeys, cipher: Seq<u8>) -> CipherKeys
    decreases cipher.len(),
{
    if cipher.len() == 0 {
        k
    } else {
        let before = keys_after_cipher(k, cipher.drop_last());
        next_keys(before, cipher.last() ^ keystream(before))
    }
}

/// The plaintext of `cipher` under the keys `k`.
pub open spec fn deciphered(k: CipherKeys, cipher: Seq<u8>) -> Seq<u8> {
    Seq::new(
        cipher.len(),
        |i: int| cipher[i] ^ keystream(keys_after_cipher(k, cipher.take(i))),
    )
}

/// The ciphertext of `plain` under the keys `k`.
pub open spec fn enciphered(k: CipherKeys, plain: Seq<u8>) -> Seq<u8> {
    Seq::new(plain.len(), |i: int| plain[i] ^ keystream(keys_after_plain(k, plain.take(i))))
}

/// The keys that a password leads to.
pub open spec fn password_keys(password: Seq<u8>) -> CipherKeys {
    keys_after_plain(initial_keys(), password)
}

/// The byte that the last byte of a deciphered check header has to equal.
pub open spec fn header_check_byte(
    file_crc: u32,
    file_time_date: u32,
    is_data_descr: bool,
) -> u8 {
    if is_data_descr {
        (file_time_date >> 8) as u8
    } else {
        (file_crc >> 24) as u8
    }
}

/// Traditional PKWARE ZIP cipher state.
pub struct ZipCrypto {
    pub key: [u32; 3],
}

impl View for ZipCrypto {
    type V = CipherKeys;

    open spec fn view(&self) -> CipherKeys {
        CipherKeys { k0: self.key@[0], k1: self.key@[1], k2: self.key@[2] }
    }
}

impl ZipCrypto {
    /// Initialize the cipher keys from a password (CP949 bytes for ALZ).
    pub fn new(password: &[u8]) -> (c: Self)
        ensures
            c@ == password_keys(password@),
    {
        let mut c = ZipCrypto { key: [305419896, 591751049, 878082192] };
        let mut i: usize = 0;
        assert(password@.take(0) =~= Seq::<u8>::empty());
        while i < password.len()
            invariant
                i <= password@.len(),
                c@ == password_keys(password@.take(i as int)),
            decreases password@.len() - i,
        {
            c.update_keys(password[i]);
            i = i + 1;
            assert(password@.take(i as int).drop_last() =~= password@.take(i - 1));
        }
        assert(password@.take(i as int) =~= password@);
        c
    }

    /// The CRC-32 register after one more byte, by table lookup.
    pub fn crc32_byte(crc: u32, b: u8) -> (r: u32)
        ensures
            r == crc32_update(crc, b),
    {
        let index: u32 = (crc ^ (b as u32)) & 0xff;
        assert(index < 256) by (bit_vector)
            requires
                index == (crc ^ (b as u32)) & 0xff,
        ;
        proof {
            lemma_crc32_table(index);
        }
        CRC32_TABLE[index as usize] ^ (crc >> 8)
    }

    /// Advance the keys by one plaintext (or password) byte.
    pub fn update_keys(&mut self, c: u8)
        ensures
            final(self)@ == next_keys(old(self)@, c),
    {
        reveal(next_keys);
        let k0: u32 = Self::crc32_byte(self.key[0], c);
        let k1: u32 = self.key[1].wrapping_add(k0 & 0xff).wrapping_mul(134775813).wrapping_add(1);
        let k2: u32 = Self::crc32_byte(self.key[2], (k1 >> 24) as u8);
        self.key = [k0, k1, k2];
    }

    /// The keystream byte for the next position.
    pub fn decrypt_byte(&self) -> (b: u8)
        ensures
            b == keystream(self@),
    {
        reveal(keystream);
        let temp: u16 = (self.key[2] | 2) as u16;
        (temp.wrapping_mul(temp ^ 1) >> 8) as u8
    }

    /// Validate the 12-byte encryption header.
    /// Returns true if password is correct.
    pub fn check_header(
        &mut self,
        enc_header: &[u8; ENCR_HEADER_LEN],
        file_crc: u32,
        file_time_date: u32,
        is_data_descr: bool,
    ) -> (ok: bool)
        ensures
            final(self)@ == keys_after_cipher(old(self)@, enc_header@),
            ok <==> deciphered(old(self)@, enc_header@).last() == header_check_byte(
                file_crc,
                file_time_date,
                is_data_descr,
            ),
    {
        let mut last_byte: u8 = 0;
        let mut i: usize = 0;
        let ghost keys = self@;
        while i < ENCR_HEADER_LEN
            invariant
                i <= ENCR_HEADER_LEN,
                self@ == keys_after_cipher(keys, enc_header@.take(i as int)),
                i > 0 ==> last_byte == deciphered(keys, enc_header@)[i - 1],
            decreases ENCR_HEADER_LEN - i,
        {
            let c: u8 = enc_header[i] ^ self.decrypt_byte();
            self.update_keys(c);
            last_byte = c;
            i = i + 1;
            assert(enc_header@.take(i as int).drop_last() =~= enc_header@.take(i - 1));
        }
        assert(enc_header@.take(i as int) =~= enc_header@);
        if is_data_descr {
            (file_time_date >> 8) as u8 == last_byte
        } else {
            (file_crc >> 24) as u8 == last_byte
        }
    }

    /// Decrypt data in place.
    pub fn decrypt(&mut self, data: &mut [u8])
        ensures
            final(data)@ == deciphered(old(self)@, old(data)@),
            final(self)@ == keys_after_cipher(old(self)@, old(data)@),
    {
        let ghost keys = self@;
        let ghost cipher = data@;
        let mut i: usize = 0;
        assert(cipher.take(0) =~= Seq::<u8>::empty());
        while i < data.len()
            invariant
                i <= data@.len(),
                data@.len() == cipher.len(),
                self@ == keys_after_cipher(keys, cipher.take(i as int)),
                forall|j: int| 0 <= j < i ==> data@[j] == deciphered(keys, cipher)[j],
                forall|j: int| i <= j < cipher.len() ==> data@[j] == cipher[j],
            decreases cipher.len() - i,
        {
            let temp: u8 = data[i] ^ self.decrypt_byte();
            self.update_keys(temp);
            data[i] = temp;
            i = i + 1;
            assert(cipher.take(i as int).drop_last() =~= cipher.take(i - 1));
        }
        assert(cipher.take(i as int) =~= cipher);
        assert(data@ =~= deciphered(keys, cipher));
    }
}

/// Deciphering takes a stretch of ciphertext in pieces as well as at once: the
/// keys left by the first piece are the ones that the second piece needs.
#[verifier::rlimit(40)]
pub proof fn lemma_decipher_concat(k: CipherKeys, a: Seq<u8>, b: Seq<u8>)
    ensures
        keys_after_cipher(k, a + b) == keys_after_cipher(keys_after_cipher(k, a), b),
        deciphered(k, a + b) == deciphered(k, a) + deciphered(keys_after_cipher(k, a), b),
    decreases b.len(),
{
    let mid = keys_after_cipher(k, a);
    if b.len() == 0 {
        assert(a + b =~= a);
    } else {
        lemma_decipher_concat(k, a, b.drop_last());
        assert((a + b).drop_last() =~= a + b.drop_last());
    }
    assert forall|i: int| 0 <= i < (a + b).len() implies deciphered(k, a + b)[i] == (deciphered(
        k,
        a,
    ) + deciphered(mid, b))[i] by {
        if i < a.len() {
            assert((a + b).take(i) =~= a.take(i));
        } else {
            let j = i - a.len();
            if j < b.len() - 1 {
                assert((a + b).take(i) =~= (a + b.drop_last()).take(i));
                assert(b.take(j) =~= b.drop_last().take(j));
                assert(deciphered(k, a + b.drop_last())[i] == (deciphered(k, a) + deciphered(
                    mid,
                    b.drop_last(),
                ))[i]);
            } else {
                assert((a + b).take(i) =~= a + b.drop_last());
                assert(b.take(j) =~= b.drop_last());
            }
        }
    }
    assert(deciphered(k, a + b) =~= deciphered(k, a) + deciphered(mid, b));
}

/// Deciphering undoes enciphering under the same keys, and leaves the keys
/// where enciphering left them.
#[verifier::rlimit(40)]
pub proof fn lemma_decipher_undoes_encipher(k: CipherKeys, plain: Seq<u8>)
    ensures
        deciphered(k, enciphered(k, plain)) == plain,
        keys_after_cipher(k, enciphered(k, plain)) == keys_after_plain(k, plain),
    decreases plain.len(),
{
    let cipher = enciphered(k, plain);
    if plain.len() == 0 {
        assert(deciphered(k, cipher) =~= plain);
    } else {
        let head = plain.drop_last();
        lemma_decipher_undoes_encipher(k, head);
        assert(plain.take(plain.len() - 1) =~= head);
        assert(cipher.drop_last() =~= enciphered(k, head)) by {
            assert forall|i: int| 0 <= i < head.len() implies cipher[i] == enciphered(k, head)[i] by {
                assert(plain.take(i) =~= head.take(i));
            }
        }
        let mask = keystream(keys_after_plain(k, head));
        lemma_mask_twice(plain.last(), mask);
        assert(cipher.last() == plain.last() ^ mask);
        assert(cipher =~= enciphered(k, head) + seq![cipher.last()]);
        lemma_decipher_concat(k, enciphered(k, head), seq![cipher.last()]);
        let tail = deciphered(keys_after_plain(k, head), seq![cipher.last()]);
        assert(seq![cipher.last()].take(0) =~= Seq::<u8>::empty());
        assert(tail =~= seq![plain.last()]);
        assert(deciphered(k, cipher) =~= plain);
    }
}

/// Masking twice with the same byte gives the first byte back.
proof fn lemma_mask_twice(a: u8, b: u8)
    by (bit_vector)
    ensures
        (a ^ b) ^ b == a,
{
}

/// Enciphering what was deciphered under the same keys gives the ciphertext
/// back.
pub proof fn lemma_encipher_undoes_decipher(k: CipherKeys, cipher: Seq<u8>)
    ensures
        enciphered(k, deciphered(k, cipher)) == cipher,
        keys_after_plain(k, deciphered(k, cipher)) == keys_after_cipher(k, cipher),
    decreases cipher.len(),
{
    let plain = deciphered(k, cipher);
    if cipher.len() == 0 {
        assert(enciphered(k, plain) =~= cipher);
    } else {
        let head = cipher.drop_last();
        lemma_encipher_undoes_decipher(k, head);
        assert(cipher.take(cipher.len() - 1) =~= head);
        assert(plain.drop_last() =~= deciphered(k, head)) by {
            assert forall|i: int| 0 <= i < head.len() implies plain[i] == deciphered(k, head)[i] by {
                assert(cipher.take(i) =~= head.take(i));
            }
        }
        lemma_mask_twice(cipher.last(), keystream(keys_after_cipher(k, head)));
        assert forall|i: int| 0 <= i < cipher.len() implies enciphered(k, plain)[i] == cipher[i] by {
            if i < head.len() {
                assert(plain.take(i) =~= deciphered(k, head).take(i));
                assert(enciphered(k, deciphered(k, head))[i] == head[i]);
            } else {
                assert(plain.take(i) =~= deciphered(k, head));
            }
        }
        assert(enciphered(k, plain) =~= cipher);
    }
}

/// The password that an entry was enciphered with is accepted: a check header
/// whose plaintext ends with the check byte still ends with it after
/// enciphering and deciphering.
pub proof fn lemma_right_password_is_accepted(
    k: CipherKeys,
    plain_header: Seq<u8>,
    file_crc: u32,
    file_time_date: u32,
    is_data_descr: bool,
)
    requires
        plain_header.len() == ENCR_HEADER_LEN,
        plain_header.last() == header_check_byte(file_crc, file_time_date, is_data_descr),
    ensures
        deciphered(k, enciphered(k, plain_header)).last() == header_check_byte(
            file_crc,
            file_time_date,
            is_data_descr,
        ),
{
    lemma_decipher_undoes_encipher(k, plain_header);
}

/// Deciphering the front of some data gives the front of the plaintext.
pub proof fn lemma_decipher_front(k: CipherKeys, cipher: Seq<u8>, n: int)
    requires
        0 <= n <= cipher.len(),
    ensures
        deciphered(k, cipher.take(n)) == deciphered(k, cipher).take(n),
{
    assert forall|i: int| 0 <= i < n implies deciphered(k, cipher.take(n))[i] == deciphered(
        k,
        cipher,
    ).take(n)[i] by {
        assert(cipher.take(n).take(i) =~= cipher.take(i));
    }
    assert(deciphered(k, cipher.take(n)) =~= deciphered(k, cipher).take(n));
}

/// The byte that ends the check header, in numbers: the second byte of the
/// time where there is a data descriptor, and else the highest of the CRC.
pub proof fn lemma_check_byte_value(file_crc: u32, file_time_date: u32)
    ensures
        header_check_byte(file_crc, file_time_date, true) == file_time_date / 256 % 256,
        header_check_byte(file_crc, file_time_date, false) == file_crc / 0x100_0000,
{
    assert((file_time_date >> 8) as u8 == file_time_date / 256 % 256 && (file_crc >> 24) as u8
        == file_crc / 0x100_0000) by (bit_vector);
}

/// One step of the cipher in numbers. The first key is a CRC-32 register that
/// takes the byte, the second a linear congruence over it, and the third a
/// CRC-32 register that takes the highest byte of the second.
pub proof fn lemma_key_step_value(k: CipherKeys, plain: u8)
    ensures
        ({
            let next = next_keys(k, plain);
            let low = k.k0 ^ plain as u32;
            let high = k.k2 ^ (next.k1 / 0x100_0000) as u32;
            &&& next.k0 == CRC32_TABLE@[low as int % 256] ^ (k.k0 / 256) as u32
            &&& next.k1 == ((k.k1 + next.k0 % 256) * 134775813 + 1) % 0x1_0000_0000
            &&& next.k2 == CRC32_TABLE@[high as int % 256] ^ (k.k2 / 256) as u32
        }),
{
    reveal(next_keys);
    let next = next_keys(k, plain);
    let (k0, n1) = (next.k0, next.k1);
    assert(k0 & 0xff == k0 % 256 && (n1 >> 24) as u8 as u32 == n1 / 0x100_0000) by (bit_vector);
    lemma_register_step_value(k.k0, plain);
    lemma_register_step_value(k.k2, (n1 >> 24) as u8);
    lemma_congruence(k.k1, k0 & 0xff);
}

/// A linear congruence in arithmetic that wraps is one of the remainders.
proof fn lemma_congruence(k: u32, low: u32)
    ensures
        k.wrapping_add(low).wrapping_mul(134775813).wrapping_add(1) == ((k + low) * 134775813 + 1)
            % 0x1_0000_0000,
{
    let sum = k.wrapping_add(low);
    let product = sum.wrapping_mul(134775813);
    let wide = k + low;
    let m = 0x1_0000_0000int;
    assert(sum == wide % m);
    assert(product == (sum * 134775813) % m);
    vstd::arithmetic::div_mod::lemma_mul_mod_noop_left(wide, 134775813, m);
    assert(product == (wide * 134775813) % m);
    vstd::arithmetic::div_mod::lemma_add_mod_noop(wide * 134775813, 1, m);
    assert(product.wrapping_add(1) == (product + 1) % m);
}

/// One step of a CRC-32 register through the table.
pub proof fn lemma_register_step_value(crc: u32, b: u8)
    ensures
        crc32_update(crc, b) == CRC32_TABLE@[(crc ^ b as u32) as int % 256] ^ (crc / 256) as u32,
{
    let x = crc ^ b as u32;
    assert(x & 0xff == x % 256 && x & 0xff < 256) by (bit_vector);
    assert(crc >> 8 == crc / 256) by (bit_vector);
    lemma_crc32_table(x & 0xff);
}

/// The byte that masks the next plaintext byte, in numbers: the middle bits of
/// the product of two neighbouring numbers, of which one has bit 1 set.
pub proof fn lemma_keystream_value(k: CipherKeys)
    ensures
        ({
            let t = (k.k2 % 0x1_0000) as u16 | 2;
            keystream(k) == (t * (t ^ 1)) / 256 % 256
        }),
{
    reveal(keystream);
    let k2 = k.k2;
    let t = (k2 % 0x1_0000) as u16 | 2;
    assert((k2 | 2) as u16 == (k2 % 0x1_0000) as u16 | 2) by (bit_vector);
    let product = t.wrapping_mul(t ^ 1);
    assert(product == (t * (t ^ 1)) % 0x1_0000);
    assert((product >> 8) as u8 == product / 256) by (bit_vector);
}

/// The CRC-32 of nothing is zero, and one more byte moves the inverted
/// checksum on as a register.
pub proof fn lemma_crc32_grows(data: Seq<u8>, b: u8)
    ensures
        data.len() == 0 ==> crc32_of(data) == 0,
        ({
            let register = !crc32_of(data);
            !crc32_of(data.push(b)) == CRC32_TABLE@[(register ^ b as u32) as int % 256] ^ (register
                / 256) as u32
        }),
{
    let register = crc32_register(0xffff_ffff, data);
    let more = crc32_register(0xffff_ffff, data.push(b));
    assert(data.push(b).drop_last() =~= data);
    assert(!0xffff_ffffu32 == 0 && !(!register) == register && !(!more) == more) by (bit_vector);
    lemma_register_step_value(register, b);
}

/// What the cipher does with one byte: it is masked, and the plaintext byte
/// moves the keys on. With the law on pieces this says what it does with any
/// number of them.
pub proof fn lemma_cipher_on_one_byte(k: CipherKeys, b: u8)
    ensures
        deciphered(k, seq![b]) == seq![b ^ keystream(k)],
        keys_after_cipher(k, seq![b]) == next_keys(k, b ^ keystream(k)),
        enciphered(k, seq![b]) == seq![b ^ keystream(k)],
        keys_after_plain(k, seq![b]) == next_keys(k, b),
{
    let one = seq![b];
    assert(one.take(0) =~= Seq::<u8>::empty());
    assert(one.drop_last() =~= Seq::<u8>::empty());
    reveal_with_fuel(keys_after_cipher, 2);
    reveal_with_fuel(keys_after_plain, 2);
    assert(deciphered(k, one) =~= seq![b ^ keystream(k)]);
    assert(enciphered(k, one) =~= seq![b ^ keystream(k)]);
}

/// The keys go on over plaintext, or a password, in pieces as well as at once.
pub proof fn lemma_keys_concat(k: CipherKeys, a: Seq<u8>, b: Seq<u8>)
    ensures
        keys_after_plain(k, a + b) == keys_after_plain(keys_after_plain(k, a), b),
    decreases b.len(),
{
    if b.len() == 0 {
        assert(a + b =~= a);
    } else {
        lemma_keys_concat(k, a, b.drop_last());
        assert((a + b).drop_last() =~= a + b.drop_last());
        assert((a + b).last() == b.last());
    }
}

/// The keys of a password start from fixed numbers and take in each of its
/// bytes.
pub proof fn lemma_password_keys(password: Seq<u8>, b: u8)
    ensures
        password.len() == 0 ==> password_keys(password) == (CipherKeys {
            k0: 0x12345678,
            k1: 0x23456789,
            k2: 0x34567890,
        }),
        password_keys(password.push(b)) == next_keys(password_keys(password), b),
{
    assert(password.push(b).drop_last() =~= password);
}

} // verus!
