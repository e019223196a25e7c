//! The twiddle factors of the transform: powers of the primitive 256th root of
//! unity `17`, in bit-reversed order.

use vstd::arithmetic::power::{lemma_pow0, lemma_pow1, lemma_pow_adds, pow};
use vstd::prelude::*;

use super::modular::{lemma_residue_mul, lemma_round_div_unique, residue, round_div};

verus! {

/// The powers `17^BitRev7(k)` modulo `q`, for `k` in `0..128`.
pub const ZETA_RAW: [u16; 128] = [
    1, 1729, 2580, 3289, 2642, 630, 1897, 848, 1062, 1919, 193, 797, 2786, 3260, 569, 1746, 296,
    2447, 1339, 1476, 3046, 56, 2240, 1333, 1426, 2094, 535, 2882, 2393, 2879, 1974, 821, 289,
    331, 3253, 1756, 1197, 2304, 2277, 2055, 650, 1977, 2513, 632, 2865, 33, 1320, 1915, 2319,
    1435, 807, 452, 1438, 2868, 1534, 2402, 2647, 2617, 1481, 648, 2474, 3110, 1227, 910, 17,
    2761, 583, 2649, 1637, 723, 2288, 1100, 1409, 2662, 3281, 233, 756, 2156, 3015, 3050, 1703,
    1651, 2789, 1789, 1847, 952, 1461, 2687, 939, 2308, 2437, 2388, 733, 2337, 268, 641, 1584,
    2298, 2037, 3220, 375, 2549, 2090, 1645, 1063, 319, 2773, 757, 2099, 561, 2466, 2594, 2804,
    1092, 403, 1026, 1143, 2150, 2775, 886, 1722, 1212, 1874, 1029, 2110, 2935, 885, 2154,
];

/// The integer nearest to `zeta * 2^15 / q`, for each entry of [`ZETA_RAW`].
pub const ZETA_BARRETT: [i16; 128] = [
    10, 17019, 25395, 32374, 26006, 6201, 18673, 8347, 10453, 18889, 1900, 7845, 27423, 32089,
    5601, 17186, 2914, 24086, 13180, 14529, 29982, 551, 22049, 13121, 14036, 20612, 5266, 28368,
    23555, 28339, 19430, 8081, 2845, 3258, 32020, 17285, 11782, 22679, 22413, 20228, 6398, 19460,
    24736, 6221, 28201, 325, 12993, 18850, 22826, 14125, 7943, 4449, 14155, 28230, 15099, 23643,
    26055, 25760, 14578, 6378, 24352, 30612, 12078, 8957, 167, 27177, 5739, 26075, 16113, 7117,
    22521, 10828, 13869, 26203, 32296, 2293, 7441, 21222, 29677, 30022, 16763, 16251, 27453,
    17609, 18180, 9371, 14381, 26449, 9243, 22718, 23988, 23506, 7215, 23004, 2638, 6309, 15592,
    22620, 20051, 31695, 3691, 25090, 20572, 16192, 10463, 3140, 27295, 7451, 20661, 5522, 24273,
    25533, 27600, 10749, 3967, 10099, 11251, 21163, 27315, 8721, 16950, 11930, 18446, 10129,
    20769, 28890, 8711, 21202,
];

/// The powers `17^(2 BitRev7(i) + 1)` modulo `q`, for `i` in `0..128`: the
/// moduli `X^2 - gamma` of the base multiplication.
pub const GAMMA_RAW: [u16; 128] = [
    17, 3312, 2761, 568, 583, 2746, 2649, 680, 1637, 1692, 723, 2606, 2288, 1041, 1100, 2229,
    1409, 1920, 2662, 667, 3281, 48, 233, 3096, 756, 2573, 2156, 1173, 3015, 314, 3050, 279, 1703,
    1626, 1651, 1678, 2789, 540, 1789, 1540, 1847, 1482, 952, 2377, 1461, 1868, 2687, 642, 939,
    2390, 2308, 1021, 2437, 892, 2388, 941, 733, 2596, 2337, 992, 268, 3061, 641, 2688, 1584,
    1745, 2298, 1031, 2037, 1292, 3220, 109, 375, 2954, 2549, 780, 2090, 1239, 1645, 1684, 1063,
    2266, 319, 3010, 2773, 556, 757, 2572, 2099, 1230, 561, 2768, 2466, 863, 2594, 735, 2804, 525,
    1092, 2237, 403, 2926, 1026, 2303, 1143, 2186, 2150, 1179, 2775, 554, 886, 2443, 1722, 1607,
    1212, 2117, 1874, 1455, 1029, 2300, 2110, 1219, 2935, 394, 885, 2444, 2154, 1175,
];

/// Reverses the low seven bits of `k`.
pub open spec fn bit_rev_7(k: int) -> int {
    64 * (k % 2) + 32 * (k / 2 % 2) + 16 * (k / 4 % 2) + 8 * (k / 8 % 2) + 4 * (k / 16 % 2) + 2 * (k
        / 32 % 2) + k / 64 % 2
}

/// The power `17^e` modulo `q`.
#[verifier::opaque]
pub open spec fn zeta_power(e: int) -> int {
    residue(pow(17, e as nat))
}

/// The twiddle factor of node `k` of the transform.
#[verifier::opaque]
pub open spec fn zeta(k: int) -> int {
    zeta_power(bit_rev_7(k))
}

/// The square of the indeterminate in the `i`-th factor of the transform.
#[verifier::opaque]
pub open spec fn gamma(i: int) -> int {
    zeta_power(2 * bit_rev_7(i) + 1)
}

proof fn lemma_power_step(e: int)
    requires
        0 <= e,
    ensures
        zeta_power(e + 1) == residue(17 * zeta_power(e)),
{
    reveal(zeta_power);
    lemma_pow_adds(17, e as nat, 1);
    lemma_pow1(17);
    assert((e as nat + 1) as nat == (e + 1) as nat);
    lemma_residue_mul(17, 17, pow(17, e as nat), zeta_power(e));
}

proof fn lemma_power_zero()
    ensures
        zeta_power(0) == 1,
{
    reveal(zeta_power);
    lemma_pow0(17);
}

proof fn lemma_powers_0()
    ensures
        zeta_power(0) == 1,
        zeta_power(1) == 17,
        zeta_power(2) == 289,
        zeta_power(3) == 1584,
        zeta_power(4) == 296,
        zeta_power(5) == 1703,
        zeta_power(6) == 2319,
        zeta_power(7) == 2804,
        zeta_power(8) == 1062,
        zeta_power(9) == 1409,
        zeta_power(10) == 650,
        zeta_power(11) == 1063,
        zeta_power(12) == 1426,
        zeta_power(13) == 939,
        zeta_power(14) == 2647,
        zeta_power(15) == 1722,
        zeta_power(16) == 2642,
{
    lemma_power_zero();
    lemma_power_step(0);
    lemma_power_step(1);
    lemma_power_step(2);
    lemma_power_step(3);
    lemma_power_step(4);
    lemma_power_step(5);
    lemma_power_step(6);
    lemma_power_step(7);
    lemma_power_step(8);
    lemma_power_step(9);
    lemma_power_step(10);
    lemma_power_step(11);
    lemma_power_step(12);
    lemma_power_step(13);
    lemma_power_step(14);
    lemma_power_step(15);
}

proof fn lemma_powers_1()
    requires
        zeta_power(16) == 2642,
    ensures
        zeta_power(17) == 1637,
        zeta_power(18) == 1197,
        zeta_power(19) == 375,
        zeta_power(20) == 3046,
        zeta_power(21) == 1847,
        zeta_power(22) == 1438,
        zeta_power(23) == 1143,
        zeta_power(24) == 2786,
        zeta_power(25) == 756,
        zeta_power(26) == 2865,
        zeta_power(27) == 2099,
        zeta_power(28) == 2393,
        zeta_power(29) == 733,
        zeta_power(30) == 2474,
        zeta_power(31) == 2110,
        zeta_power(32) == 2580,
{
    lemma_power_step(16);
    lemma_power_step(17);
    lemma_power_step(18);
    lemma_power_step(19);
    lemma_power_step(20);
    lemma_power_step(21);
    lemma_power_step(22);
    lemma_power_step(23);
    lemma_power_step(24);
    lemma_power_step(25);
    lemma_power_step(26);
    lemma_power_step(27);
    lemma_power_step(28);
    lemma_power_step(29);
    lemma_power_step(30);
    lemma_power_step(31);
}

proof fn lemma_powers_2()
    requires
        zeta_power(32) == 2580,
    ensures
        zeta_power(33) == 583,
        zeta_power(34) == 3253,
        zeta_power(35) == 2037,
        zeta_power(36) == 1339,
        zeta_power(37) == 2789,
        zeta_power(38) == 807,
        zeta_power(39) == 403,
        zeta_power(40) == 193,
        zeta_power(41) == 3281,
        zeta_power(42) == 2513,
        zeta_power(43) == 2773,
        zeta_power(44) == 535,
        zeta_power(45) == 2437,
        zeta_power(46) == 1481,
        zeta_power(47) == 1874,
        zeta_power(48) == 1897,
{
    lemma_power_step(32);
    lemma_power_step(33);
    lemma_power_step(34);
    lemma_power_step(35);
    lemma_power_step(36);
    lemma_power_step(37);
    lemma_power_step(38);
    lemma_power_step(39);
    lemma_power_step(40);
    lemma_power_step(41);
    lemma_power_step(42);
    lemma_power_step(43);
    lemma_power_step(44);
    lemma_power_step(45);
    lemma_power_step(46);
    lemma_power_step(47);
}

proof fn lemma_powers_3()
    requires
        zeta_power(48) == 1897,
    ensures
        zeta_power(49) == 2288,
        zeta_power(50) == 2277,
        zeta_power(51) == 2090,
        zeta_power(52) == 2240,
        zeta_power(53) == 1461,
        zeta_power(54) == 1534,
        zeta_power(55) == 2775,
        zeta_power(56) == 569,
        zeta_power(57) == 3015,
        zeta_power(58) == 1320,
        zeta_power(59) == 2466,
        zeta_power(60) == 1974,
        zeta_power(61) == 268,
        zeta_power(62) == 1227,
        zeta_power(63) == 885,
        zeta_power(64) == 1729,
{
    lemma_power_step(48);
    lemma_power_step(49);
    lemma_power_step(50);
    lemma_power_step(51);
    lemma_power_step(52);
    lemma_power_step(53);
    lemma_power_step(54);
    lemma_power_step(55);
    lemma_power_step(56);
    lemma_power_step(57);
    lemma_power_step(58);
    lemma_power_step(59);
    lemma_power_step(60);
    lemma_power_step(61);
    lemma_power_step(62);
    lemma_power_step(63);
}

proof fn lemma_powers_4()
    requires
        zeta_power(64) == 1729,
    ensures
        zeta_power(65) == 2761,
        zeta_power(66) == 331,
        zeta_power(67) == 2298,
        zeta_power(68) == 2447,
        zeta_power(69) == 1651,
        zeta_power(70) == 1435,
        zeta_power(71) == 1092,
        zeta_power(72) == 1919,
        zeta_power(73) == 2662,
        zeta_power(74) == 1977,
        zeta_power(75) == 319,
        zeta_power(76) == 2094,
        zeta_power(77) == 2308,
        zeta_power(78) == 2617,
        zeta_power(79) == 1212,
        zeta_power(80) == 630,
{
    lemma_power_step(64);
    lemma_power_step(65);
    lemma_power_step(66);
    lemma_power_step(67);
    lemma_power_step(68);
    lemma_power_step(69);
    lemma_power_step(70);
    lemma_power_step(71);
    lemma_power_step(72);
    lemma_power_step(73);
    lemma_power_step(74);
    lemma_power_step(75);
    lemma_power_step(76);
    lemma_power_step(77);
    lemma_power_step(78);
    lemma_power_step(79);
}

proof fn lemma_powers_5()
    requires
        zeta_power(80) == 630,
    ensures
        zeta_power(81) == 723,
        zeta_power(82) == 2304,
        zeta_power(83) == 2549,
        zeta_power(84) == 56,
        zeta_power(85) == 952,
        zeta_power(86) == 2868,
        zeta_power(87) == 2150,
        zeta_power(88) == 3260,
        zeta_power(89) == 2156,
        zeta_power(90) == 33,
        zeta_power(91) == 561,
        zeta_power(92) == 2879,
        zeta_power(93) == 2337,
        zeta_power(94) == 3110,
        zeta_power(95) == 2935,
        zeta_power(96) == 3289,
{
    lemma_power_step(80);
    lemma_power_step(81);
    lemma_power_step(82);
    lemma_power_step(83);
    lemma_power_step(84);
    lemma_power_step(85);
    lemma_power_step(86);
    lemma_power_step(87);
    lemma_power_step(88);
    lemma_power_step(89);
    lemma_power_step(90);
    lemma_power_step(91);
    lemma_power_step(92);
    lemma_power_step(93);
    lemma_power_step(94);
    lemma_power_step(95);
}

proof fn lemma_powers_6()
    requires
        zeta_power(96) == 3289,
    ensures
        zeta_power(97) == 2649,
        zeta_power(98) == 1756,
        zeta_power(99) == 3220,
        zeta_power(100) == 1476,
        zeta_power(101) == 1789,
        zeta_power(102) == 452,
        zeta_power(103) == 1026,
        zeta_power(104) == 797,
        zeta_power(105) == 233,
        zeta_power(106) == 632,
        zeta_power(107) == 757,
        zeta_power(108) == 2882,
        zeta_power(109) == 2388,
        zeta_power(110) == 648,
        zeta_power(111) == 1029,
        zeta_power(112) == 848,
{
    lemma_power_step(96);
    lemma_power_step(97);
    lemma_power_step(98);
    lemma_power_step(99);
    lemma_power_step(100);
    lemma_power_step(101);
    lemma_power_step(102);
    lemma_power_step(103);
    lemma_power_step(104);
    lemma_power_step(105);
    lemma_power_step(106);
    lemma_power_step(107);
    lemma_power_step(108);
    lemma_power_step(109);
    lemma_power_step(110);
    lemma_power_step(111);
}

proof fn lemma_powers_7()
    requires
        zeta_power(112) == 848,
    ensures
        zeta_power(113) == 1100,
        zeta_power(114) == 2055,
        zeta_power(115) == 1645,
        zeta_power(116) == 1333,
        zeta_power(117) == 2687,
        zeta_power(118) == 2402,
        zeta_power(119) == 886,
        zeta_power(120) == 1746,
        zeta_power(121) == 3050,
        zeta_power(122) == 1915,
        zeta_power(123) == 2594,
        zeta_power(124) == 821,
        zeta_power(125) == 641,
        zeta_power(126) == 910,
        zeta_power(127) == 2154,
        zeta_power(128) == 3328,
{
    lemma_power_step(112);
    lemma_power_step(113);
    lemma_power_step(114);
    lemma_power_step(115);
    lemma_power_step(116);
    lemma_power_step(117);
    lemma_power_step(118);
    lemma_power_step(119);
    lemma_power_step(120);
    lemma_power_step(121);
    lemma_power_step(122);
    lemma_power_step(123);
    lemma_power_step(124);
    lemma_power_step(125);
    lemma_power_step(126);
    lemma_power_step(127);
}

/// The first powers of the root of unity.
proof fn lemma_powers()
    ensures
        zeta_power(0) == 1,
        zeta_power(1) == 17,
        zeta_power(2) == 289,
        zeta_power(3) == 1584,
        zeta_power(4) == 296,
        zeta_power(5) == 1703,
        zeta_power(6) == 2319,
        zeta_power(7) == 2804,
        zeta_power(8) == 1062,
        zeta_power(9) == 1409,
        zeta_power(10) == 650,
        zeta_power(11) == 1063,
        zeta_power(12) == 1426,
        zeta_power(13) == 939,
        zeta_power(14) == 2647,
        zeta_power(15) == 1722,
        zeta_power(16) == 2642,
        zeta_power(17) == 1637,
        zeta_power(18) == 1197,
        zeta_power(19) == 375,
        zeta_power(20) == 3046,
        zeta_power(21) == 1847,
        zeta_power(22) == 1438,
        zeta_power(23) == 1143,
        zeta_power(24) == 2786,
        zeta_power(25) == 756,
        zeta_power(26) == 2865,
        zeta_power(27) == 2099,
        zeta_power(28) == 2393,
        zeta_power(29) == 733,
        zeta_power(30) == 2474,
        zeta_power(31) == 2110,
        zeta_power(32) == 2580,
        zeta_power(33) == 583,
        zeta_power(34) == 3253,
        zeta_power(35) == 2037,
        zeta_power(36) == 1339,
        zeta_power(37) == 2789,
        zeta_power(38) == 807,
        zeta_power(39) == 403,
        zeta_power(40) == 193,
        zeta_power(41) == 3281,
        zeta_power(42) == 2513,
        zeta_power(43) == 2773,
        zeta_power(44) == 535,
        zeta_power(45) == 2437,
        zeta_power(46) == 1481,
        zeta_power(47) == 1874,
        zeta_power(48) == 1897,
        zeta_power(49) == 2288,
        zeta_power(50) == 2277,
        zeta_power(51) == 2090,
        zeta_power(52) == 2240,
        zeta_power(53) == 1461,
        zeta_power(54) == 1534,
        zeta_power(55) == 2775,
        zeta_power(56) == 569,
        zeta_power(57) == 3015,
        zeta_power(58) == 1320,
        zeta_power(59) == 2466,
        zeta_power(60) == 1974,
        zeta_power(61) == 268,
        zeta_power(62) == 1227,
        zeta_power(63) == 885,
        zeta_power(64) == 1729,
        zeta_power(65) == 2761,
        zeta_power(66) == 331,
        zeta_power(67) == 2298,
        zeta_power(68) == 2447,
        zeta_power(69) == 1651,
        zeta_power(70) == 1435,
        zeta_power(71) == 1092,
        zeta_power(72) == 1919,
        zeta_power(73) == 2662,
        zeta_power(74) == 1977,
        zeta_power(75) == 319,
        zeta_power(76) == 2094,
        zeta_power(77) == 2308,
        zeta_power(78) == 2617,
        zeta_power(79) == 1212,
        zeta_power(80) == 630,
        zeta_power(81) == 723,
        zeta_power(82) == 2304,
        zeta_power(83) == 2549,
        zeta_power(84) == 56,
        zeta_power(85) == 952,
        zeta_power(86) == 2868,
        zeta_power(87) == 2150,
        zeta_power(88) == 3260,
        zeta_power(89) == 2156,
        zeta_power(90) == 33,
        zeta_power(91) == 561,
        zeta_power(92) == 2879,
        zeta_power(93) == 2337,
        zeta_power(94) == 3110,
        zeta_power(95) == 2935,
        zeta_power(96) == 3289,
        zeta_power(97) == 2649,
        zeta_power(98) == 1756,
        zeta_power(99) == 3220,
        zeta_power(100) == 1476,
        zeta_power(101) == 1789,
        zeta_power(102) == 452,
        zeta_power(103) == 1026,
        zeta_power(104) == 797,
        zeta_power(105) == 233,
        zeta_power(106) == 632,
        zeta_power(107) == 757,
        zeta_power(108) == 2882,
        zeta_power(109) == 2388,
        zeta_power(110) == 648,
        zeta_power(111) == 1029,
        zeta_power(112) == 848,
        zeta_power(113) == 1100,
        zeta_power(114) == 2055,
        zeta_power(115) == 1645,
        zeta_power(116) == 1333,
        zeta_power(117) == 2687,
        zeta_power(118) == 2402,
        zeta_power(119) == 886,
        zeta_power(120) == 1746,
        zeta_power(121) == 3050,
        zeta_power(122) == 1915,
        zeta_power(123) == 2594,
        zeta_power(124) == 821,
        zeta_power(125) == 641,
        zeta_power(126) == 910,
        zeta_power(127) == 2154,
        zeta_power(128) == 3328,
{
    lemma_powers_0();
    lemma_powers_1();
    lemma_powers_2();
    lemma_powers_3();
    lemma_powers_4();
    lemma_powers_5();
    lemma_powers_6();
    lemma_powers_7();
}

/// The table of twiddle factors holds the powers it is said to hold.
pub proof fn lemma_zeta_raw(k: int)
    requires
        0 <= k < 128,
    ensures
        ZETA_RAW[k] == zeta(k),
        0 < ZETA_RAW[k] < 3329,
        ZETA_BARRETT[k] == round_div(ZETA_RAW[k] * 0x8000, 3329),
{
    reveal(zeta);
    lemma_powers();
    lemma_round_div_unique(ZETA_RAW[k] * 0x8000, 3329, ZETA_BARRETT[k] as int);
}

/// Exponents add up in products of powers.
proof fn lemma_power_add(a: int, b: int)
    requires
        0 <= a,
        0 <= b,
    ensures
        residue(zeta_power(a) * zeta_power(b)) == zeta_power(a + b),
{
    reveal(zeta_power);
    lemma_pow_adds(17, a as nat, b as nat);
    assert((a as nat + b as nat) as nat == (a + b) as nat);
    lemma_residue_mul(pow(17, a as nat), zeta_power(a), pow(17, b as nat), zeta_power(b));
}

/// Half way round the circle the sign flips.
proof fn lemma_power_half(a: int)
    requires
        0 <= a,
    ensures
        zeta_power(a + 128) == residue(-zeta_power(a)),
{
    lemma_powers();
    lemma_power_add(a, 128);
    lemma_residue_mul(zeta_power(a), zeta_power(a), 3328, -1);
}

/// The constant `r` of the modulus `X^n - r` that node `k` of the transform
/// reduces by: `-1` at the root, `zeta(k / 2)` for a left child and
/// `-zeta(k / 2)` for a right one.
pub open spec fn root(k: int) -> int {
    if k <= 1 {
        -1
    } else if k % 2 == 0 {
        zeta(k / 2)
    } else {
        -zeta(k / 2)
    }
}

/// The twiddle factor of a node is a square root of its constant.
pub proof fn lemma_zeta_square(k: int)
    requires
        1 <= k < 128,
    ensures
        residue(zeta(k) * zeta(k)) == residue(root(k)),
{
    reveal(zeta);
    lemma_powers();
    lemma_power_add(bit_rev_7(k), bit_rev_7(k));
    if k > 1 {
        let j = k / 2;
        lemma_child_bits(k);
        lemma_power_half(bit_rev_7(j));
        assert(residue(zeta(j)) == zeta(j)) by {
            reveal(zeta_power);
        }
    }
}

/// The moduli of the base multiplication are signed twiddle factors of the
/// last level.
proof fn lemma_gamma_raw(i: int)
    requires
        0 <= i < 128,
    ensures
        i % 2 == 0 ==> GAMMA_RAW[i] == ZETA_RAW[64 + i / 2],
        i % 2 == 1 ==> GAMMA_RAW[i] == 3329 - ZETA_RAW[64 + i / 2],
{
}

proof fn lemma_gamma_bits(i: int)
    requires
        0 <= i < 128,
    ensures
        2 * bit_rev_7(i) + 1 == bit_rev_7(64 + i / 2) + 128 * (i % 2),
{
    let x = i as u8;
    let y = (64 + i / 2) as u8;
    assert(2 * (64 * (x % 2) + 32 * (x / 2 % 2) + 16 * (x / 4 % 2) + 8 * (x / 8 % 2) + 4 * (x / 16
        % 2) + 2 * (x / 32 % 2) + x / 64 % 2) + 1 == 64 * (y % 2) + 32 * (y / 2 % 2) + 16 * (y / 4
        % 2) + 8 * (y / 8 % 2) + 4 * (y / 16 % 2) + 2 * (y / 32 % 2) + y / 64 % 2 + 128 * (x % 2))
        by (bit_vector)
        requires
            x < 128,
            y == 64 + x / 2,
    ;
}

/// The reversal of a child's index is half that of its parent, or half way
/// round from it.
proof fn lemma_child_bits(k: int)
    requires
        2 <= k < 128,
    ensures
        2 * bit_rev_7(k) == bit_rev_7(k / 2) + 128 * (k % 2),
{
    let x = k as u8;
    let y = (k / 2) as u8;
    assert(2 * (64 * (x % 2) + 32 * (x / 2 % 2) + 16 * (x / 4 % 2) + 8 * (x / 8 % 2) + 4 * (x / 16
        % 2) + 2 * (x / 32 % 2) + x / 64 % 2) == 64 * (y % 2) + 32 * (y / 2 % 2) + 16 * (y / 4 % 2)
        + 8 * (y / 8 % 2) + 4 * (y / 16 % 2) + 2 * (y / 32 % 2) + y / 64 % 2 + 128 * (x % 2))
        by (bit_vector)
        requires
            x < 128,
            y == x / 2,
    ;
}

/// The leaves of the transform hold the moduli of the base multiplication.
pub proof fn lemma_gamma_root(i: int)
    requires
        0 <= i < 128,
    ensures
        gamma(i) == residue(root(128 + i)),
        GAMMA_RAW[i] == gamma(i),
{
    reveal(zeta);
    reveal(gamma);
    let j = 64 + i / 2;
    assert((128 + i) / 2 == j);
    lemma_gamma_bits(i);
    lemma_gamma_raw(i);
    lemma_power_half(bit_rev_7(j));
    assert(residue(zeta(j)) == zeta(j)) by {
        reveal(zeta_power);
    }
    lemma_zeta_raw(j);
}

/// Mirrored positions of a level have reversals that add up to `128`.
proof fn lemma_mirror_bits(blocks: int, b: int)
    requires
        blocks == 1 || blocks == 2 || blocks == 4 || blocks == 8 || blocks == 16 || blocks == 32
            || blocks == 64,
        0 <= b < blocks,
    ensures
        bit_rev_7(blocks + b) + bit_rev_7(2 * blocks - 1 - b) == 128,
{
    let x = (blocks + b) as u8;
    let y = (2 * blocks - 1 - b) as u8;
    let n = blocks as u8;
    assert(64 * (x % 2) + 32 * (x / 2 % 2) + 16 * (x / 4 % 2) + 8 * (x / 8 % 2) + 4 * (x / 16 % 2)
        + 2 * (x / 32 % 2) + x / 64 % 2 + 64 * (y % 2) + 32 * (y / 2 % 2) + 16 * (y / 4 % 2) + 8 * (
    y / 8 % 2) + 4 * (y / 16 % 2) + 2 * (y / 32 % 2) + y / 64 % 2 == 128) by (bit_vector)
        requires
            n == 1 || n == 2 || n == 4 || n == 8 || n == 16 || n == 32 || n == 64,
            n <= x < 2 * n,
            x + y == 3 * n - 1,
    ;
}

/// Each level of the transform holds the negated inverses of its own twiddle
/// factors, in reverse order.
pub proof fn lemma_zeta_mirror(blocks: int, b: int)
    requires
        blocks == 1 || blocks == 2 || blocks == 4 || blocks == 8 || blocks == 16 || blocks == 32
            || blocks == 64,
        0 <= b < blocks,
    ensures
        residue(zeta(blocks + b) * zeta(2 * blocks - 1 - b)) == residue(-1),
{
    reveal(zeta);
    lemma_powers();
    let k = blocks + b;
    let m = 2 * blocks - 1 - b;
    lemma_mirror_bits(blocks, b);
    lemma_power_add(bit_rev_7(k), bit_rev_7(m));
}

} // verus!
