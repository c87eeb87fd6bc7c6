use vstd::prelude::*;

verus! {

/// Powers of ten.
pub open spec fn pow10(n: nat) -> nat
    decreases n,
{
    if n == 0 {
        1
    } else {
        10 * pow10((n - 1) as nat)
    }
}

/// Powers of two.
pub open spec fn pow2(n: nat) -> nat
    decreases n,
{
    if n == 0 {
        1
    } else {
        2 * pow2((n - 1) as nat)
    }
}

pub proof fn lemma_pow10_pos(n: nat)
    ensures
        pow10(n) >= 1,
    decreases n,
{
    if n > 0 {
        lemma_pow10_pos((n - 1) as nat);
    }
}

pub proof fn lemma_pow2_pos(n: nat)
    ensures
        pow2(n) >= 1,
    decreases n,
{
    if n > 0 {
        lemma_pow2_pos((n - 1) as nat);
    }
}

pub proof fn lemma_pow10_mono(a: nat, b: nat)
    requires
        a <= b,
    ensures
        pow10(a) <= pow10(b),
    decreases b,
{
    if a < b {
        lemma_pow10_mono(a, (b - 1) as nat);
        lemma_pow10_pos((b - 1) as nat);
    }
}

pub proof fn lemma_pow2_mono(a: nat, b: nat)
    requires
        a <= b,
    ensures
        pow2(a) <= pow2(b),
    decreases b,
{
    if a < b {
        lemma_pow2_mono(a, (b - 1) as nat);
        lemma_pow2_pos((b - 1) as nat);
    }
}

/// Splitting a power of two over a sum of exponents.
pub proof fn lemma_pow2_add(a: nat, b: nat)
    ensures
        pow2(a + b) == pow2(a) * pow2(b),
    decreases b,
{
    if b == 0 {
        assert(pow2(a + 0) == pow2(a) * 1);
    } else {
        lemma_pow2_add(a, (b - 1) as nat);
        assert(pow2(a + b) == 2 * pow2((a + b - 1) as nat));
        assert(pow2(a) * pow2(b) == pow2(a) * (2 * pow2((b - 1) as nat)));
        assert(pow2(a) * (2 * pow2((b - 1) as nat)) == 2 * (pow2(a) * pow2((b - 1) as nat)))
            by (nonlinear_arith);
    }
}


pub proof fn lemma_pow10_31()
    ensures
        pow10(31) == 10000000000000000000000000000000,
{
    assert(pow10(0) == 1);
    assert(pow10(1) == 10);
    assert(pow10(2) == 100);
    assert(pow10(3) == 1000);
    assert(pow10(4) == 10000);
    assert(pow10(5) == 100000);
    assert(pow10(6) == 1000000);
    assert(pow10(7) == 10000000);
    assert(pow10(8) == 100000000);
    assert(pow10(9) == 1000000000);
    assert(pow10(10) == 10000000000);
    assert(pow10(11) == 100000000000);
    assert(pow10(12) == 1000000000000);
    assert(pow10(13) == 10000000000000);
    assert(pow10(14) == 100000000000000);
    assert(pow10(15) == 1000000000000000);
    assert(pow10(16) == 10000000000000000);
    assert(pow10(17) == 100000000000000000);
    assert(pow10(18) == 1000000000000000000);
    assert(pow10(19) == 10000000000000000000);
    assert(pow10(20) == 100000000000000000000);
    assert(pow10(21) == 1000000000000000000000);
    assert(pow10(22) == 10000000000000000000000);
    assert(pow10(23) == 100000000000000000000000);
    assert(pow10(24) == 1000000000000000000000000);
    assert(pow10(25) == 10000000000000000000000000);
    assert(pow10(26) == 100000000000000000000000000);
    assert(pow10(27) == 1000000000000000000000000000);
    assert(pow10(28) == 10000000000000000000000000000);
    assert(pow10(29) == 100000000000000000000000000000);
    assert(pow10(30) == 1000000000000000000000000000000);
    assert(pow10(31) == 10000000000000000000000000000000);
}


pub proof fn lemma_pow2_vals()
    ensures
        pow2(23) == 0x80_0000,
        pow2(24) == 0x100_0000,
        pow2(64) == 0x1_0000_0000_0000_0000,
        pow2(65) == 0x2_0000_0000_0000_0000,
        pow2(66) == 0x4_0000_0000_0000_0000,
        pow2(104) == 20282409603651670423947251286016,
        pow2(105) == 40564819207303340847894502572032,
        pow2(106) == 81129638414606681695789005144064,
        pow2(127) == 170141183460469231731687303715884105728,
{
    assert(pow2(0) == 1);
    assert(pow2(1) == 2);
    assert(pow2(2) == 4);
    assert(pow2(3) == 8);
    assert(pow2(4) == 16);
    assert(pow2(5) == 32);
    assert(pow2(6) == 64);
    assert(pow2(7) == 128);
    assert(pow2(8) == 256);
    assert(pow2(9) == 512);
    assert(pow2(10) == 1024);
    assert(pow2(11) == 2048);
    assert(pow2(12) == 4096);
    assert(pow2(13) == 8192);
    assert(pow2(14) == 16384);
    assert(pow2(15) == 32768);
    assert(pow2(16) == 65536);
    assert(pow2(17) == 131072);
    assert(pow2(18) == 262144);
    assert(pow2(19) == 524288);
    assert(pow2(20) == 1048576);
    assert(pow2(21) == 2097152);
    assert(pow2(22) == 4194304);
    assert(pow2(23) == 8388608);
    assert(pow2(24) == 16777216);
    assert(pow2(25) == 33554432);
    assert(pow2(26) == 67108864);
    assert(pow2(27) == 134217728);
    assert(pow2(28) == 268435456);
    assert(pow2(29) == 536870912);
    assert(pow2(30) == 1073741824);
    assert(pow2(31) == 2147483648);
    assert(pow2(32) == 4294967296);
    assert(pow2(33) == 8589934592);
    assert(pow2(34) == 17179869184);
    assert(pow2(35) == 34359738368);
    assert(pow2(36) == 68719476736);
    assert(pow2(37) == 137438953472);
    assert(pow2(38) == 274877906944);
    assert(pow2(39) == 549755813888);
    assert(pow2(40) == 1099511627776);
    assert(pow2(41) == 2199023255552);
    assert(pow2(42) == 4398046511104);
    assert(pow2(43) == 8796093022208);
    assert(pow2(44) == 17592186044416);
    assert(pow2(45) == 35184372088832);
    assert(pow2(46) == 70368744177664);
    assert(pow2(47) == 140737488355328);
    assert(pow2(48) == 281474976710656);
    assert(pow2(49) == 562949953421312);
    assert(pow2(50) == 1125899906842624);
    assert(pow2(51) == 2251799813685248);
    assert(pow2(52) == 4503599627370496);
    assert(pow2(53) == 9007199254740992);
    assert(pow2(54) == 18014398509481984);
    assert(pow2(55) == 36028797018963968);
    assert(pow2(56) == 72057594037927936);
    assert(pow2(57) == 144115188075855872);
    assert(pow2(58) == 288230376151711744);
    assert(pow2(59) == 576460752303423488);
    assert(pow2(60) == 1152921504606846976);
    assert(pow2(61) == 2305843009213693952);
    assert(pow2(62) == 4611686018427387904);
    assert(pow2(63) == 9223372036854775808);
    assert(pow2(64) == 18446744073709551616);
    assert(pow2(65) == 36893488147419103232);
    assert(pow2(66) == 73786976294838206464);
    assert(pow2(67) == 147573952589676412928);
    assert(pow2(68) == 295147905179352825856);
    assert(pow2(69) == 590295810358705651712);
    assert(pow2(70) == 1180591620717411303424);
    assert(pow2(71) == 2361183241434822606848);
    assert(pow2(72) == 4722366482869645213696);
    assert(pow2(73) == 9444732965739290427392);
    assert(pow2(74) == 18889465931478580854784);
    assert(pow2(75) == 37778931862957161709568);
    assert(pow2(76) == 75557863725914323419136);
    assert(pow2(77) == 151115727451828646838272);
    assert(pow2(78) == 302231454903657293676544);
    assert(pow2(79) == 604462909807314587353088);
    assert(pow2(80) == 1208925819614629174706176);
    assert(pow2(81) == 2417851639229258349412352);
    assert(pow2(82) == 4835703278458516698824704);
    assert(pow2(83) == 9671406556917033397649408);
    assert(pow2(84) == 19342813113834066795298816);
    assert(pow2(85) == 38685626227668133590597632);
    assert(pow2(86) == 77371252455336267181195264);
    assert(pow2(87) == 154742504910672534362390528);
    assert(pow2(88) == 309485009821345068724781056);
    assert(pow2(89) == 618970019642690137449562112);
    assert(pow2(90) == 1237940039285380274899124224);
    assert(pow2(91) == 2475880078570760549798248448);
    assert(pow2(92) == 4951760157141521099596496896);
    assert(pow2(93) == 9903520314283042199192993792);
    assert(pow2(94) == 19807040628566084398385987584);
    assert(pow2(95) == 39614081257132168796771975168);
    assert(pow2(96) == 79228162514264337593543950336);
    assert(pow2(97) == 158456325028528675187087900672);
    assert(pow2(98) == 316912650057057350374175801344);
    assert(pow2(99) == 633825300114114700748351602688);
    assert(pow2(100) == 1267650600228229401496703205376);
    assert(pow2(101) == 2535301200456458802993406410752);
    assert(pow2(102) == 5070602400912917605986812821504);
    assert(pow2(103) == 10141204801825835211973625643008);
    assert(pow2(104) == 20282409603651670423947251286016);
    assert(pow2(105) == 40564819207303340847894502572032);
    assert(pow2(106) == 81129638414606681695789005144064);
    assert(pow2(107) == 162259276829213363391578010288128);
    assert(pow2(108) == 324518553658426726783156020576256);
    assert(pow2(109) == 649037107316853453566312041152512);
    assert(pow2(110) == 1298074214633706907132624082305024);
    assert(pow2(111) == 2596148429267413814265248164610048);
    assert(pow2(112) == 5192296858534827628530496329220096);
    assert(pow2(113) == 10384593717069655257060992658440192);
    assert(pow2(114) == 20769187434139310514121985316880384);
    assert(pow2(115) == 41538374868278621028243970633760768);
    assert(pow2(116) == 83076749736557242056487941267521536);
    assert(pow2(117) == 166153499473114484112975882535043072);
    assert(pow2(118) == 332306998946228968225951765070086144);
    assert(pow2(119) == 664613997892457936451903530140172288);
    assert(pow2(120) == 1329227995784915872903807060280344576);
    assert(pow2(121) == 2658455991569831745807614120560689152);
    assert(pow2(122) == 5316911983139663491615228241121378304);
    assert(pow2(123) == 10633823966279326983230456482242756608);
    assert(pow2(124) == 21267647932558653966460912964485513216);
    assert(pow2(125) == 42535295865117307932921825928971026432);
    assert(pow2(126) == 85070591730234615865843651857942052864);
    assert(pow2(127) == 170141183460469231731687303715884105728);
}

/// The binary exponent of m / p when m >= p: the largest e with
/// p * 2^e <= m, searched upward from `e`.
pub open spec fn find_e_up(m: nat, p: nat, e: nat) -> nat
    decreases 64 - e,
{
    if e >= 64 {
        e
    } else if m / pow2((e + 1) as nat) >= p {
        find_e_up(m, p, (e + 1) as nat)
    } else {
        e
    }
}

/// The number of doublings that lift m to at least p: the smallest k with
/// m * 2^k >= p, searched upward from `k`.
pub open spec fn find_k_down(m: nat, p: nat, k: nat) -> nat
    decreases 150 - k,
{
    if k >= 150 {
        k
    } else if m * pow2(k) < p {
        find_k_down(m, p, (k + 1) as nat)
    } else {
        k
    }
}

/// Drops low decimal digits until at most 31 decimal places remain.
pub open spec fn reduce31(m: nat, d: nat) -> (nat, nat)
    decreases d,
{
    if d <= 31 {
        (m, d)
    } else {
        reduce31(m / 10, (d - 1) as nat)
    }
}

pub open spec fn sign_val(neg: bool) -> nat {
    if neg {
        0x8000_0000
    } else {
        0
    }
}

/// The IEEE-754 single-precision bit pattern of ±m / 10^d for d >= 1, with
/// at most 31 decimal places kept: the binary exponent is located, the
/// quotient of the scaled mantissa by the decimal denominator is rounded to
/// nearest with ties to even, and the fields are packed. Values whose
/// exponent falls below the normal range round within the top denormal
/// window or collapse to zero.
pub open spec fn f32_bits_core(neg: bool, m: nat, d: nat) -> u32 {
    if m == 0 {
        sign_val(neg) as u32
    } else {
        let p = pow10(d);
        let e: int = if m >= p {
            find_e_up(m, p, 0) as int
        } else {
            0 - (find_k_down(m, p, 0) as int)
        };
        let ec: int = if e < -126 {
            -126
        } else {
            e
        };
        let s: int = 23 - ec;
        let n: nat = if s >= 0 {
            m * pow2(s as nat)
        } else {
            m
        };
        let dd: nat = if s >= 0 {
            p
        } else {
            p * pow2((0 - s) as nat)
        };
        let q0 = n / dd;
        let r = n % dd;
        let q: nat = if 2 * r > dd || (2 * r == dd && q0 % 2 == 1) {
            (q0 + 1) as nat
        } else {
            q0
        };
        let q2: nat = if q == 0x100_0000 {
            0x80_0000
        } else {
            q
        };
        let e2: int = if q == 0x100_0000 {
            ec + 1
        } else {
            ec
        };
        if q2 < 0x80_0000 {
            (sign_val(neg) + q2) as u32
        } else {
            (sign_val(neg) + (e2 + 127) * 0x80_0000 + (q2 - 0x80_0000)) as u32
        }
    }
}

/// The bit pattern of ±m0 / 10^d0 after reducing to at most 31 decimal
/// places.
pub open spec fn f32_bits_of(neg: bool, m0: nat, d0: nat) -> u32 {
    let md = reduce31(m0, d0);
    f32_bits_core(neg, md.0, md.1)
}

proof fn lemma_find_e_up_props(m: nat, p: nat, e: nat)
    requires
        p >= 1,
        p * pow2(e) <= m,
    ensures
        ({
            let r = find_e_up(m, p, e);
            &&& e <= r
            &&& p * pow2(r) <= m
            &&& (r < 64 ==> m < p * pow2((r + 1) as nat))
        }),
    decreases 64 - e,
{
    if e >= 64 {
    } else if m / pow2((e + 1) as nat) >= p {
        lemma_pow2_pos((e + 1) as nat);
        vstd::arithmetic::div_mod::lemma_fundamental_div_mod(m as int, pow2((e + 1) as nat) as int);
        assert(p * pow2((e + 1) as nat) <= m) by (nonlinear_arith)
            requires
                m / pow2((e + 1) as nat) >= p,
                pow2((e + 1) as nat) >= 1,
                m == pow2((e + 1) as nat) * (m / pow2((e + 1) as nat)) + m % pow2((e + 1) as nat),
                m % pow2((e + 1) as nat) >= 0,
        ;
        lemma_find_e_up_props(m, p, (e + 1) as nat);
    } else {
        lemma_pow2_pos((e + 1) as nat);
        vstd::arithmetic::div_mod::lemma_fundamental_div_mod(m as int, pow2((e + 1) as nat) as int);
        vstd::arithmetic::div_mod::lemma_mod_bound(m as int, pow2((e + 1) as nat) as int);
        assert(m < p * pow2((e + 1) as nat)) by (nonlinear_arith)
            requires
                m / pow2((e + 1) as nat) < p,
                pow2((e + 1) as nat) >= 1,
                m == pow2((e + 1) as nat) * (m / pow2((e + 1) as nat)) + m % pow2((e + 1) as nat),
                0 <= m % pow2((e + 1) as nat) < pow2((e + 1) as nat),
        ;
    }
}

proof fn lemma_find_k_down_props(m: nat, p: nat, k: nat)
    requires
        m >= 1,
        k == 0 || m * pow2((k - 1) as nat) < p,
    ensures
        ({
            let r = find_k_down(m, p, k);
            &&& k <= r
            &&& (r < 150 ==> m * pow2(r) >= p)
            &&& (r > 0 ==> m * pow2((r - 1) as nat) < p)
        }),
    decreases 150 - k,
{
    if k >= 150 {
    } else if m * pow2(k) < p {
        lemma_find_k_down_props(m, p, (k + 1) as nat);
    }
}

/// Computes the IEEE-754 single bit pattern of ±m0 / 10^d0.
#[verifier::rlimit(60)]
pub fn f32_bits(neg: bool, m0: u64, d0: u32) -> (r: u32)
    requires
        d0 >= 1,
    ensures
        r == f32_bits_of(neg, m0 as nat, d0 as nat),
{
    let mut m: u64 = m0;
    let mut d: u32 = d0;
    while d > 31
        invariant
            d >= 1,
            reduce31(m as nat, d as nat) == reduce31(m0 as nat, d0 as nat),
        decreases d,
    {
        m = m / 10;
        d = d - 1;
    }
    let sign: u32 = if neg {
        0x8000_0000
    } else {
        0
    };
    if m == 0 {
        return sign;
    }
    proof {
        lemma_pow10_31();
        lemma_pow2_vals();
        lemma_pow10_mono(d as nat, 31);
    }
    // p = 10^d
    let mut p: u128 = 1;
    let mut j: u32 = 0;
    while j < d
        invariant
            j <= d <= 31,
            p == pow10(j as nat),
        decreases d - j,
    {
        proof {
            lemma_pow10_mono((j + 1) as nat, 31);
            lemma_pow10_31();
        }
        p = p * 10;
        j = j + 1;
    }
    proof {
        lemma_pow10_mono(1, d as nat);
        lemma_pow10_pos(d as nat);
    }
    let mu: u128 = m as u128;
    let ghost mn: nat = m as nat;
    let ghost pn: nat = p as nat;

    // locate the binary exponent
    let e: i32;
    if mu >= p {
        let mut ee: u32 = 0;
        let mut pw: u128 = 2;
        proof {
            assert(pow2(0) == 1);
            assert(pow2(1) == 2);
        }
        while ee < 64 && mu / pw >= p
            invariant
                ee <= 64,
                2 <= pw == pow2((ee + 1) as nat),
                pn * pow2(ee as nat) <= mn,
                mu == mn,
                p == pn,
                pn >= 1,
                find_e_up(mn, pn, 0) == find_e_up(mn, pn, ee as nat),
            decreases 64 - ee,
        {
            proof {
                lemma_pow2_vals();
                lemma_pow2_mono((ee + 2) as nat, 66);
                lemma_pow2_pos((ee + 2) as nat);
                vstd::arithmetic::div_mod::lemma_fundamental_div_mod(mn as int, pw as int);
                assert(pn * pow2((ee + 1) as nat) <= mn) by (nonlinear_arith)
                    requires
                        (mn as int) / (pow2((ee + 1) as nat) as int) >= pn,
                        pow2((ee + 1) as nat) >= 1,
                        mn == pow2((ee + 1) as nat) * (mn as int / (pow2((ee + 1) as nat) as int))
                            + mn as int % (pow2((ee + 1) as nat) as int),
                        mn as int % (pow2((ee + 1) as nat) as int) >= 0,
                ;
                assert(find_e_up(mn, pn, ee as nat) == find_e_up(mn, pn, (ee + 1) as nat));
                assert(pow2((ee + 2) as nat) == 2 * pow2((ee + 1) as nat));
            }
            ee = ee + 1;
            pw = pw * 2;
        }
        proof {
            lemma_pow2_vals();
            if ee >= 64 {
                assert(pn * pow2(64) <= mn);
                assert(pn * pow2(64) >= pow2(64)) by (nonlinear_arith)
                    requires
                        pn >= 1,
                        pow2(64) >= 1,
                ;
                assert(mn < pow2(64));
                assert(false);
            }
            vstd::arithmetic::div_mod::lemma_fundamental_div_mod(mn as int, pw as int);
            vstd::arithmetic::div_mod::lemma_mod_bound(mn as int, pw as int);
            assert(mn < pn * pow2((ee + 1) as nat)) by (nonlinear_arith)
                requires
                    (mn as int) / (pow2((ee + 1) as nat) as int) < pn,
                    pow2((ee + 1) as nat) >= 1,
                    mn == pow2((ee + 1) as nat) * (mn as int / (pow2((ee + 1) as nat) as int))
                        + mn as int % (pow2((ee + 1) as nat) as int),
                    0 <= mn as int % (pow2((ee + 1) as nat) as int) < pow2((ee + 1) as nat),
            ;
            assert(find_e_up(mn, pn, ee as nat) == ee as nat);
        }
        e = ee as i32;
    } else {
        let mut k: u32 = 0;
        let mut pk: u128 = 1;
        proof {
            assert(pow2(0) == 1);
            lemma_pow2_vals();
            lemma_pow2_mono(64, 106);
            assert(mn * pow2(0) < 81129638414606681695789005144064) by (nonlinear_arith)
                requires
                    mn < pow2(64),
                    pow2(64) == 0x1_0000_0000_0000_0000,
                    pow2(0) == 1,
            ;
        }
        while k < 150 && mu * pk < p
            invariant
                k <= 150,
                pk == pow2(k as nat),
                mu == mn,
                p == pn,
                mn >= 1,
                pn <= pow10(31),
                mn * pow2(k as nat) < 81129638414606681695789005144064,
                k == 0 || mn * pow2((k - 1) as nat) < pn,
                find_k_down(mn, pn, 0) == find_k_down(mn, pn, k as nat),
            decreases 150 - k,
        {
            proof {
                lemma_pow2_pos(k as nat);
                lemma_pow10_31();
                lemma_pow2_vals();
                assert(pk <= mn * pow2(k as nat)) by (nonlinear_arith)
                    requires
                        mn >= 1,
                        pk == pow2(k as nat),
                        pow2(k as nat) >= 1,
                ;
                assert(pow2((k + 1) as nat) == 2 * pow2(k as nat));
                assert(mn * pow2((k + 1) as nat) == 2 * (mn * pow2(k as nat))) by (nonlinear_arith)
                    requires
                        pow2((k + 1) as nat) == 2 * pow2(k as nat),
                ;
                assert(pow2(104) <= pow2(105)) by {
                    lemma_pow2_mono(104, 105);
                }
                assert(mn * pow2(k as nat) < pow10(31));
                assert(mn * pow2((k + 1) as nat) < 81129638414606681695789005144064);
                assert(find_k_down(mn, pn, k as nat) == find_k_down(mn, pn, (k + 1) as nat));
            }
            k = k + 1;
            pk = pk * 2;
        }
        proof {
            lemma_pow2_vals();
            lemma_pow10_31();
            if k >= 150 {
                assert(mn * pow2(149) < pn);
                assert(pow2(104) <= pow2(149)) by {
                    lemma_pow2_mono(104, 149);
                }
                assert(mn * pow2(149) >= pow2(149)) by (nonlinear_arith)
                    requires
                        mn >= 1,
                        pow2(149) >= 1,
                ;
                assert(false);
            }
            assert(find_k_down(mn, pn, k as nat) == k as nat);
            if k == 0 {
                assert(pow2(0) == 1);
                assert(mn * pow2(0) >= pn);
                assert(mn >= pn) by (nonlinear_arith)
                    requires
                        mn * pow2(0) >= pn,
                        pow2(0) == 1,
                ;
                assert(false);
            }
            // k stays within the range the clamped exponent allows
            if k > 127 {
                assert(mn * pow2(126) < pn) by {
                    lemma_pow2_mono(126, (k - 1) as nat);
                    assert(mn * pow2(126) <= mn * pow2((k - 1) as nat)) by (nonlinear_arith)
                        requires
                            pow2(126) <= pow2((k - 1) as nat),
                            mn >= 1,
                    ;
                }
                assert(pow2(126) <= mn * pow2(126)) by (nonlinear_arith)
                    requires
                        mn >= 1,
                        pow2(126) >= 1,
                ;
                assert(pow2(104) <= pow2(126)) by {
                    lemma_pow2_mono(104, 126);
                }
                assert(pow10(31) < pow2(104));
                assert(false);
            }
        }
        e = 0 - (k as i32);
    }
    let ec: i32 = if e < -126 {
        -126
    } else {
        e
    };
    let s: i32 = 23 - ec;

    // the master bound: m * 2^s stays under p * 2^24 when s >= 0
    proof {
        lemma_pow2_vals();
        lemma_pow10_31();
        if s >= 0 {
            if e >= 0 {
                assert(mn < pn * pow2((e + 1) as nat));
                lemma_pow2_add((e + 1) as nat, s as nat);
                assert(mn * pow2(s as nat) < pn * pow2(24)) by (nonlinear_arith)
                    requires
                        mn < pn * pow2((e + 1) as nat),
                        pow2((e + 1) as nat) * pow2(s as nat) == pow2((e + 1 + s) as nat),
                        e + 1 + s == 24,
                        pow2(s as nat) >= 1,
                        pow2((e + 1 + s) as nat) == pow2(24),
                ;
            } else {
                let k = (0 - e) as nat;
                assert(mn * pow2((k - 1) as nat) < pn);
                if e >= -126 {
                    // s == 23 + k
                    lemma_pow2_add((k - 1) as nat, 24);
                    assert(mn * pow2(s as nat) < pn * pow2(24)) by (nonlinear_arith)
                        requires
                            mn * pow2((k - 1) as nat) < pn,
                            pow2((k - 1) as nat) * pow2(24) == pow2((k - 1 + 24) as nat),
                            s == k + 23,
                            pow2((k + 23) as nat) == pow2((k - 1 + 24) as nat),
                            pow2(24) >= 1,
                    ;
                } else {
                    // k > 126, s == 149
                    lemma_pow2_add((k - 1) as nat, (150 - k) as nat);
                    lemma_pow2_mono((150 - k) as nat, 23);
                    assert(mn * pow2(149) < pn * pow2(24)) by (nonlinear_arith)
                        requires
                            mn * pow2((k - 1) as nat) < pn,
                            pow2((k - 1) as nat) * pow2((150 - k) as nat) == pow2(149),
                            pow2((150 - k) as nat) <= pow2(23),
                            pow2(23) * 2 == pow2(24),
                            pow2((150 - k) as nat) >= 1,
                            pow2((k - 1) as nat) >= 1,
                    ;
                }
            }
            assert(pn * pow2(24) <= pow10(31) * pow2(24)) by (nonlinear_arith)
                requires
                    pn <= pow10(31),
                    pow2(24) >= 1,
            ;
            assert(pow10(31) * pow2(24) < pow2(127)) by {
                lemma_pow10_31();
                lemma_pow2_vals();
                lemma_pow2_add(104, 23);
                assert(pow10(31) < pow2(104));
                assert(pow2(104) * pow2(24) == 2 * pow2(127)) by (nonlinear_arith)
                    requires
                        pow2(104) * pow2(23) == pow2(127),
                        pow2(24) == 2 * pow2(23),
                ;
                assert(pow10(31) * pow2(24) < pow2(104) * pow2(24)) by (nonlinear_arith)
                    requires
                        pow10(31) < pow2(104),
                        pow2(24) >= 1,
                ;
            }
            assert(mn * pow2(s as nat) < pow2(127));
        }
    }

    // n and dd
    let nv: u128;
    let dd: u128;
    if s >= 0 {
        let su = s as u32;
        let mut nn: u128 = mu;
        let mut j2: u32 = 0;
        proof {
            assert(pow2(0) == 1);
            assert(mn * pow2(0) == mn) by (nonlinear_arith)
                requires
                    pow2(0) == 1,
            ;
        }
        while j2 < su
            invariant
                j2 <= su,
                nn == mn * pow2(j2 as nat),
                mn * pow2(su as nat) < pow2(127),
                mu == mn,
            decreases su - j2,
        {
            proof {
                lemma_pow2_mono((j2 + 1) as nat, su as nat);
                assert(mn * pow2((j2 + 1) as nat) <= mn * pow2(su as nat)) by (nonlinear_arith)
                    requires
                        pow2((j2 + 1) as nat) <= pow2(su as nat),
                        mn >= 0,
                ;
                assert(pow2((j2 + 1) as nat) == 2 * pow2(j2 as nat));
                assert(mn * pow2((j2 + 1) as nat) == 2 * (mn * pow2(j2 as nat))) by (nonlinear_arith)
                    requires
                        pow2((j2 + 1) as nat) == 2 * pow2(j2 as nat),
                ;
                lemma_pow2_vals();
            }
            nn = nn * 2;
            j2 = j2 + 1;
        }
        nv = nn;
        dd = p;
    } else {
        // e > 23, so 10^d * 2^(e - 23) fits far inside 64 bits
        proof {
            assert(pn * pow2(e as nat) <= mn);
        }
        let t = (0 - s) as u32;
        let mut dn: u128 = p;
        let mut j2: u32 = 0;
        proof {
            assert(pow2(0) == 1);
            assert(pn * pow2(0) == pn) by (nonlinear_arith)
                requires
                    pow2(0) == 1,
            ;
            lemma_pow2_add(t as nat, 23);
            assert(pn * pow2(t as nat) * pow2(23) == pn * pow2((t + 23) as nat)) by (nonlinear_arith)
                requires
                    pow2(t as nat) * pow2(23) == pow2((t + 23) as nat),
            ;
            assert(pn * pow2((t + 23) as nat) <= mn);
            assert(pn * pow2(t as nat) <= mn) by (nonlinear_arith)
                requires
                    pn * pow2(t as nat) * pow2(23) <= mn,
                    pow2(23) >= 1,
                    pn * pow2(t as nat) >= 0,
            ;
        }
        while j2 < t
            invariant
                j2 <= t,
                dn == pn * pow2(j2 as nat),
                pn * pow2(t as nat) <= mn,
                mu == mn,
                p == pn,
                mn < pow2(64),
                pn >= 1,
            decreases t - j2,
        {
            proof {
                lemma_pow2_mono((j2 + 1) as nat, t as nat);
                assert(pn * pow2((j2 + 1) as nat) <= pn * pow2(t as nat)) by (nonlinear_arith)
                    requires
                        pow2((j2 + 1) as nat) <= pow2(t as nat),
                        pn >= 0,
                ;
                lemma_pow2_vals();
                assert(pn * pow2((j2 + 1) as nat) == 2 * (pn * pow2(j2 as nat))) by (nonlinear_arith)
                    requires
                        pow2((j2 + 1) as nat) == 2 * pow2(j2 as nat),
                ;
            }
            dn = dn * 2;
            j2 = j2 + 1;
        }
        nv = mu;
        dd = dn;
    }
    proof {
        lemma_pow2_pos((0 - s) as nat);
        assert(dd >= 1) by (nonlinear_arith)
            requires
                dd == pn || dd == pn * pow2((0 - s) as nat),
                pn >= 1,
                pow2((0 - s) as nat) >= 1,
        ;
    }
    let q0: u128 = nv / dd;
    let r0: u128 = nv % dd;
    let round_up: bool = 2 * r0 > dd || (2 * r0 == dd && q0 % 2 == 1);
    let q: u128 = if round_up {
        q0 + 1
    } else {
        q0
    };
    // q stays within 24 bits
    proof {
        lemma_pow2_vals();
        vstd::arithmetic::div_mod::lemma_fundamental_div_mod(nv as int, dd as int);
        vstd::arithmetic::div_mod::lemma_mod_bound(nv as int, dd as int);
        if s >= 0 {
            assert(nv < dd * pow2(24)) by (nonlinear_arith)
                requires
                    nv == mn * pow2(s as nat),
                    dd == pn,
                    mn * pow2(s as nat) < pn * pow2(24),
            ;
        } else {
            let t = (0 - s) as nat;
            assert(mn < pn * pow2((e + 1) as nat));
            lemma_pow2_add(t, 24);
            assert(nv < dd * pow2(24)) by (nonlinear_arith)
                requires
                    nv == mn,
                    dd == pn * pow2(t),
                    mn < pn * pow2((e + 1) as nat),
                    pow2(t) * pow2(24) == pow2((t + 24) as nat),
                    e + 1 == t + 24,
                    pow2((e + 1) as nat) == pow2((t + 24) as nat),
                    pn >= 1,
                    pow2(t) >= 1,
            ;
        }
        assert(q0 < pow2(24)) by (nonlinear_arith)
            requires
                nv == dd * q0 + r0,
                0 <= r0 < dd,
                nv < dd * pow2(24),
                dd >= 1,
        ;
    }
    let (q2, e2): (u128, i32) = if q == 0x100_0000 {
        (0x80_0000, ec + 1)
    } else {
        (q, ec)
    };
    let bits: u32 = if q2 < 0x80_0000 {
        sign + (q2 as u32)
    } else {
        sign + (((e2 + 127) as u32) * 0x80_0000) + ((q2 - 0x80_0000) as u32)
    };
    proof {
        assert(bits == f32_bits_core(neg, mn, d as nat));
    }
    bits
}

} // verus!