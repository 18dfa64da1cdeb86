//! The order of the scalar field is prime.
//!
//! The order less one is divisible by `2^32`, by the square of 906349 and by
//! 2508409, and the criterion of [`primality`](super::primality) needs no other
//! factors. That these two are prime is shown in the same way.

use super::is_prime;
use super::primality::{
    lemma_compose, lemma_power_divides, lemma_prime_divisor, lemma_product_divides,
    lemma_sole_divisor, lemma_sole_divisor_by_digits, lemma_trial_division, lemma_window,
    no_divisor, scaled_power,
};
use crate::field::fr_modulus;
use vstd::arithmetic::power::{lemma_pow0, lemma_pow1, pow};
use vstd::prelude::*;

verus! {

/// 2, 3, 7 and 73 are prime.
proof fn lemma_small_primes()
    ensures
        is_prime(2),
        is_prime(3),
        is_prime(7),
        is_prime(73),
{
    reveal_with_fuel(no_divisor, 9);
    lemma_trial_division(2, 2);
    lemma_trial_division(3, 2);
    lemma_trial_division(7, 3);
    lemma_trial_division(73, 9);
}

/// `2^22` modulo `1607`.
proof fn lemma_2_to_22()
    ensures
        pow(2, 22) % 1607 == 34,
{
    reveal_with_fuel(scaled_power, 17);
    lemma_pow0(2);
    let e0 = lemma_window(1607, 2, 0, 1, 1, 2);
    let e1 = lemma_window(1607, 2, e0, 2, 6, 34);
}

/// `34^73` modulo `1607`.
proof fn lemma_rest_to_73()
    ensures
        pow(34, 73) % 1607 == 1,
{
    reveal_with_fuel(scaled_power, 17);
    lemma_pow0(34);
    let e0 = lemma_window(1607, 34, 0, 1, 4, 919);
    let e1 = lemma_window(1607, 34, e0, 919, 9, 1);
}

/// 1607 is prime: 73, whose square is larger, divides it less one.
proof fn lemma_1607_prime()
    ensures
        is_prime(1607),
{
    let n = 1607nat;
    let p = lemma_prime_divisor(n);
    lemma_small_primes();
    lemma_2_to_22();
    lemma_rest_to_73();
    lemma_compose(n, 2, 22, 34, 73, 1);
    lemma_pow0(73);
    lemma_pow1(73);
    lemma_power_divides(n, p, n / p, 2, 73, 1, 22, 34, 487);
    lemma_sole_divisor(n, p, n / p, 73);
}

/// `2^564` modulo `906349`.
proof fn lemma_2_to_564()
    ensures
        pow(2, 564) % 906349 == 210417,
{
    reveal_with_fuel(scaled_power, 17);
    lemma_pow0(2);
    let e0 = lemma_window(906349, 2, 0, 1, 2, 4);
    let e1 = lemma_window(906349, 2, e0, 4, 3, 47778);
    let e2 = lemma_window(906349, 2, e1, 47778, 4, 210417);
}

/// `210417^1607` modulo `906349`.
proof fn lemma_rest_to_1607()
    ensures
        pow(210417, 1607) % 906349 == 1,
{
    reveal_with_fuel(scaled_power, 17);
    lemma_pow0(210417);
    let e0 = lemma_window(906349, 210417, 0, 1, 6, 370901);
    let e1 = lemma_window(906349, 210417, e0, 370901, 4, 848807);
    let e2 = lemma_window(906349, 210417, e1, 848807, 7, 1);
}

/// 906349 is prime: 1607, whose square is larger, divides it less one.
proof fn lemma_906349_prime()
    ensures
        is_prime(906349),
{
    let n = 906349nat;
    let p = lemma_prime_divisor(n);
    lemma_1607_prime();
    lemma_2_to_564();
    lemma_rest_to_1607();
    lemma_compose(n, 2, 564, 210417, 1607, 1);
    lemma_pow0(1607);
    lemma_pow1(1607);
    lemma_power_divides(n, p, n / p, 2, 1607, 1, 564, 210417, 298534);
    lemma_sole_divisor(n, p, n / p, 1607);
}

/// `2^119448` modulo `2508409`.
proof fn lemma_2_to_119448()
    ensures
        pow(2, 119448) % 2508409 == 2221347,
{
    reveal_with_fuel(scaled_power, 17);
    lemma_pow0(2);
    let e0 = lemma_window(2508409, 2, 0, 1, 1, 2);
    let e1 = lemma_window(2508409, 2, e0, 2, 13, 71386);
    let e2 = lemma_window(2508409, 2, e1, 71386, 2, 1786413);
    let e3 = lemma_window(2508409, 2, e2, 1786413, 9, 295245);
    let e4 = lemma_window(2508409, 2, e3, 295245, 8, 2221347);
}

/// `2221347^7` modulo `2508409`.
proof fn lemma_seventh_power()
    ensures
        pow(2221347, 7) % 2508409 == 1632621,
{
    reveal_with_fuel(scaled_power, 17);
    lemma_pow0(2221347);
    let e0 = lemma_window(2508409, 2221347, 0, 1, 7, 1632621);
}

/// `2221347^3` modulo `2508409`.
proof fn lemma_third_power()
    ensures
        pow(2221347, 3) % 2508409 == 1491919,
{
    reveal_with_fuel(scaled_power, 17);
    lemma_pow0(2221347);
    let e0 = lemma_window(2508409, 2221347, 0, 1, 3, 1491919);
}

/// `1632621^3` modulo `2508409`.
proof fn lemma_last_power()
    ensures
        pow(1632621, 3) % 2508409 == 1,
{
    reveal_with_fuel(scaled_power, 17);
    lemma_pow0(1632621);
    let e0 = lemma_window(2508409, 1632621, 0, 1, 3, 1);
}

/// 2508409 is prime: the fourth power of 3 and the square of 7, whose product
/// is larger than its square root, divide it less one.
proof fn lemma_2508409_prime()
    ensures
        is_prime(2508409),
{
    let n = 2508409nat;
    let p = lemma_prime_divisor(n);
    lemma_small_primes();
    lemma_2_to_119448();
    lemma_seventh_power();
    lemma_third_power();
    lemma_last_power();
    lemma_compose(n, 2, 119448, 2221347, 7, 1632621);
    lemma_compose(n, 2, 119448, 2221347, 3, 1491919);
    lemma_compose(n, 2, 836136, 1632621, 3, 1);
    assert(pow(3, 4) == 81 && pow(3, 3) == 27 && pow(7, 2) == 49 && pow(7, 1) == 7) by {
        reveal_with_fuel(pow, 5);
    }
    lemma_power_divides(n, p, n / p, 2, 3, 4, 30968, 1632621, 1128065);
    lemma_power_divides(n, p, n / p, 2, 7, 2, 51192, 1491919, 1480885);
    lemma_product_divides(81, 49, 23, 38, (p - 1) as nat);
    lemma_sole_divisor(n, p, n / p, 3969);
}

/// A reduced power modulo the order, with four more binary digits of the
/// exponent.
proof fn lemma_step(a: int, e: nat, x: int, w: nat, y: int) -> (next: nat)
    requires
        pow(a, e) % (fr_modulus() as int) == x,
        scaled_power(x, 16, scaled_power(a, w, 1)) % 0x73eda753299d7d483339d80809a1d80553bda402fffe5bfeffffffff00000001int
            == y,
    ensures
        next == 16 * e + w,
        pow(a, next) % (fr_modulus() as int) == y,
{
    lemma_window(fr_modulus(), a, e, x, w, y)
}

/// The first digits of the exponent of 7.
#[verifier::rlimit(40)]
proof fn lemma_power_of_7_part_1()
    ensures
        pow(7, 0x1c0861ef9nat) % (fr_modulus() as int)
            == 0x5dd18aff341116f9068ee52f6676a4c047eb78adf801b72b2f187410fa58ae75int,
{
    reveal_with_fuel(scaled_power, 17);
    lemma_pow0(7);
    let e0 = lemma_step(
        7,
        0,
        1,
        1,
        0x7int,
    );
    let e1 = lemma_step(
        7,
        e0,
        0x7int,
        12,
        0x6167eb8c7252078275a1int,
    );
    let e2 = lemma_step(
        7,
        e1,
        0x6167eb8c7252078275a1int,
        0,
        0x11487e8def07b6d0f4126b3078802a39740f6623fcd3849d6a10362b5dbb89eaint,
    );
    let e3 = lemma_step(
        7,
        e2,
        0x11487e8def07b6d0f4126b3078802a39740f6623fcd3849d6a10362b5dbb89eaint,
        8,
        0x5ab94228dcbac1b269cf54434034a6ae7765b2d4bec927d7d5200c616aaf2a27int,
    );
    let e4 = lemma_step(
        7,
        e3,
        0x5ab94228dcbac1b269cf54434034a6ae7765b2d4bec927d7d5200c616aaf2a27int,
        6,
        0x5cc3f10339507c50415cc907311422c8627909d334f78902ad2ac62b96faa1b7int,
    );
    let e5 = lemma_step(
        7,
        e4,
        0x5cc3f10339507c50415cc907311422c8627909d334f78902ad2ac62b96faa1b7int,
        1,
        0xa67d37f7fc4e3395773e67f3d148e2217ba5e749ba6e2a52b67f7db01e8948bint,
    );
    let e6 = lemma_step(
        7,
        e5,
        0xa67d37f7fc4e3395773e67f3d148e2217ba5e749ba6e2a52b67f7db01e8948bint,
        14,
        0x30fe19fa113862fd4ab073961735659d00192b22551a275e5db22754457fd601int,
    );
    let e7 = lemma_step(
        7,
        e6,
        0x30fe19fa113862fd4ab073961735659d00192b22551a275e5db22754457fd601int,
        15,
        0x53da2e2195fee3823ffd0db9b0cf20c9f9126bdf92774649ac45e70f3d082c9int,
    );
    let e8 = lemma_step(
        7,
        e7,
        0x53da2e2195fee3823ffd0db9b0cf20c9f9126bdf92774649ac45e70f3d082c9int,
        9,
        0x5dd18aff341116f9068ee52f6676a4c047eb78adf801b72b2f187410fa58ae75int,
    );
}

/// More digits of the exponent of 7.
#[verifier::rlimit(40)]
proof fn lemma_power_of_7_part_2()
    ensures
        pow(7, 0x1c0861ef99359c0c5dnat) % (fr_modulus() as int)
            == 0x5d4a74df6a41a6d49496eb40469d82a047952e59785337d1effcf2feec45d5e0int,
{
    reveal_with_fuel(scaled_power, 17);
    lemma_power_of_7_part_1();
    let e0 = lemma_step(
        7,
        0x1c0861ef9nat,
        0x5dd18aff341116f9068ee52f6676a4c047eb78adf801b72b2f187410fa58ae75int,
        9,
        0x1d10215d5f2b52842e796a04666340bb783f8db3e9944c4e73febf5afbbe7748int,
    );
    let e1 = lemma_step(
        7,
        e0,
        0x1d10215d5f2b52842e796a04666340bb783f8db3e9944c4e73febf5afbbe7748int,
        3,
        0x1021ffc472304ec8a7fcc737946a36d84c1d153df20b3f289eb60aa39bc52a17int,
    );
    let e2 = lemma_step(
        7,
        e1,
        0x1021ffc472304ec8a7fcc737946a36d84c1d153df20b3f289eb60aa39bc52a17int,
        5,
        0x1a1769c14b7a518c53b1a9fe090900d2533bcb6fe42c82da73cc7c2b26d9eb29int,
    );
    let e3 = lemma_step(
        7,
        e2,
        0x1a1769c14b7a518c53b1a9fe090900d2533bcb6fe42c82da73cc7c2b26d9eb29int,
        9,
        0x21997b3cb144506b73d3401f5b38ff4c6059102262ed2653e47a989000e4f61cint,
    );
    let e4 = lemma_step(
        7,
        e3,
        0x21997b3cb144506b73d3401f5b38ff4c6059102262ed2653e47a989000e4f61cint,
        12,
        0x41380719079311976ed8f4d0b041c737cff3bb1a6ae249a9cdd957c27ddfa9bfint,
    );
    let e5 = lemma_step(
        7,
        e4,
        0x41380719079311976ed8f4d0b041c737cff3bb1a6ae249a9cdd957c27ddfa9bfint,
        0,
        0x5d3ca77bae80a717b1976167e066cceef3020684ad48755aed1b220cb515f51dint,
    );
    let e6 = lemma_step(
        7,
        e5,
        0x5d3ca77bae80a717b1976167e066cceef3020684ad48755aed1b220cb515f51dint,
        12,
        0x350829afe299de9ecb4b67f5a9a0e635741994caa924acd9a65909cdc7cf9284int,
    );
    let e7 = lemma_step(
        7,
        e6,
        0x350829afe299de9ecb4b67f5a9a0e635741994caa924acd9a65909cdc7cf9284int,
        5,
        0x2f378bc7bb27e38c52d0a8e4a206260d130c56b1616fcda11f38130c8ed3d191int,
    );
    let e8 = lemma_step(
        7,
        e7,
        0x2f378bc7bb27e38c52d0a8e4a206260d130c56b1616fcda11f38130c8ed3d191int,
        13,
        0x5d4a74df6a41a6d49496eb40469d82a047952e59785337d1effcf2feec45d5e0int,
    );
}

/// More digits of the exponent of 7.
#[verifier::rlimit(40)]
proof fn lemma_power_of_7_part_3()
    ensures
        pow(7, 0x1c0861ef99359c0c5d4dae023c1nat) % (fr_modulus() as int)
            == 0x36bd78bf0345a6fb552e87ecc8f39fe8d7a08397f63c06133560223b3efa0daeint,
{
    reveal_with_fuel(scaled_power, 17);
    lemma_power_of_7_part_2();
    let e0 = lemma_step(
        7,
        0x1c0861ef99359c0c5dnat,
        0x5d4a74df6a41a6d49496eb40469d82a047952e59785337d1effcf2feec45d5e0int,
        4,
        0x28ad5588d020e6d2644507c8d0fb3dab657036af9db011a7afbd020cb7c3d5d2int,
    );
    let e1 = lemma_step(
        7,
        e0,
        0x28ad5588d020e6d2644507c8d0fb3dab657036af9db011a7afbd020cb7c3d5d2int,
        13,
        0xc39e7f6fc87afb382e28b7c5072815214ad2b50e01e460153d1bdecc7a869a4int,
    );
    let e2 = lemma_step(
        7,
        e1,
        0xc39e7f6fc87afb382e28b7c5072815214ad2b50e01e460153d1bdecc7a869a4int,
        10,
        0x73004caba9893b04e7095cf81f1444c3f3a73df867b800cf69fb74805aad8a50int,
    );
    let e3 = lemma_step(
        7,
        e2,
        0x73004caba9893b04e7095cf81f1444c3f3a73df867b800cf69fb74805aad8a50int,
        14,
        0x98713e0acb7fc48d18ff41410539d7b239b9daa22ef2a82b680a4d7021fca02int,
    );
    let e4 = lemma_step(
        7,
        e3,
        0x98713e0acb7fc48d18ff41410539d7b239b9daa22ef2a82b680a4d7021fca02int,
        0,
        0x2ecfe1c47a1057397cd19fd866a3f01d02883fc3d1f33a42c633414b503d9d00int,
    );
    let e5 = lemma_step(
        7,
        e4,
        0x2ecfe1c47a1057397cd19fd866a3f01d02883fc3d1f33a42c633414b503d9d00int,
        2,
        0x1396f0f4dc8d9f9ff297629480d0546f44aadda3642ba95ec14f98572e5a2f55int,
    );
    let e6 = lemma_step(
        7,
        e5,
        0x1396f0f4dc8d9f9ff297629480d0546f44aadda3642ba95ec14f98572e5a2f55int,
        3,
        0xccac23ccb269d4c24ef81dc4aa114c818641e8e314542a8eb979ae78261a5edint,
    );
    let e7 = lemma_step(
        7,
        e6,
        0xccac23ccb269d4c24ef81dc4aa114c818641e8e314542a8eb979ae78261a5edint,
        12,
        0x3c32129075cefb10032e5a92d97028ff5ae1577462b901f95934d10d2356fc8eint,
    );
    let e8 = lemma_step(
        7,
        e7,
        0x3c32129075cefb10032e5a92d97028ff5ae1577462b901f95934d10d2356fc8eint,
        1,
        0x36bd78bf0345a6fb552e87ecc8f39fe8d7a08397f63c06133560223b3efa0daeint,
    );
}

/// More digits of the exponent of 7.
#[verifier::rlimit(40)]
proof fn lemma_power_of_7_part_4()
    ensures
        pow(7, 0x1c0861ef99359c0c5d4dae023c1688b0aec8nat) % (fr_modulus() as int)
            == 0x2bd1700de69896b0da93bbd0561b5fa4a1f67da93f50bc1348ea78c6f8328098int,
{
    reveal_with_fuel(scaled_power, 17);
    lemma_power_of_7_part_3();
    let e0 = lemma_step(
        7,
        0x1c0861ef99359c0c5d4dae023c1nat,
        0x36bd78bf0345a6fb552e87ecc8f39fe8d7a08397f63c06133560223b3efa0daeint,
        6,
        0x2dc37348ded0590b2235d6cdf1afb0486b8ab8b432599f76a0d2f178289e2928int,
    );
    let e1 = lemma_step(
        7,
        e0,
        0x2dc37348ded0590b2235d6cdf1afb0486b8ab8b432599f76a0d2f178289e2928int,
        8,
        0x739dfba2a0fa0a001f6f2fabf3dc8f73783c2daf84008b088fcf83f1691d167cint,
    );
    let e2 = lemma_step(
        7,
        e1,
        0x739dfba2a0fa0a001f6f2fabf3dc8f73783c2daf84008b088fcf83f1691d167cint,
        8,
        0x234c650c351e5bfc060be2fa104af930b14e287e885de8a91d98ae68c41e2f13int,
    );
    let e3 = lemma_step(
        7,
        e2,
        0x234c650c351e5bfc060be2fa104af930b14e287e885de8a91d98ae68c41e2f13int,
        11,
        0x25b9de997231bcf60f2e00cfd358f18540e37f651ba1da97019032558b50f074int,
    );
    let e4 = lemma_step(
        7,
        e3,
        0x25b9de997231bcf60f2e00cfd358f18540e37f651ba1da97019032558b50f074int,
        0,
        0x378b92e90c9ce7cd487e920c012cefbe0a59483338f23404a0119ea816621b67int,
    );
    let e5 = lemma_step(
        7,
        e4,
        0x378b92e90c9ce7cd487e920c012cefbe0a59483338f23404a0119ea816621b67int,
        10,
        0x54b79514a16c3561eeea0b6fb50ab8dea81ec9e6714e87d6857df649abc3bd50int,
    );
    let e6 = lemma_step(
        7,
        e5,
        0x54b79514a16c3561eeea0b6fb50ab8dea81ec9e6714e87d6857df649abc3bd50int,
        14,
        0x7cd526fbd7dde9f34a773ee22e0ccd88cd8a57fe44ce1830f74b0c371c18d40int,
    );
    let e7 = lemma_step(
        7,
        e6,
        0x7cd526fbd7dde9f34a773ee22e0ccd88cd8a57fe44ce1830f74b0c371c18d40int,
        12,
        0x138507640ff29cac25153dbf9a359d443b2b38a50214777122734ea55a2422e0int,
    );
    let e8 = lemma_step(
        7,
        e7,
        0x138507640ff29cac25153dbf9a359d443b2b38a50214777122734ea55a2422e0int,
        8,
        0x2bd1700de69896b0da93bbd0561b5fa4a1f67da93f50bc1348ea78c6f8328098int,
    );
}

/// More digits of the exponent of 7.
#[verifier::rlimit(40)]
proof fn lemma_power_of_7_part_5()
    ensures
        pow(7, 0x1c0861ef99359c0c5d4dae023c1688b0aec8a50ad7c25nat) % (fr_modulus() as int)
            == 0x403c1306874be615f00b198a172b6fa90b1636569ff6caf347684cee0ea66c45int,
{
    reveal_with_fuel(scaled_power, 17);
    lemma_power_of_7_part_4();
    let e0 = lemma_step(
        7,
        0x1c0861ef99359c0c5d4dae023c1688b0aec8nat,
        0x2bd1700de69896b0da93bbd0561b5fa4a1f67da93f50bc1348ea78c6f8328098int,
        10,
        0x1b70446b03a48108d9043244f9008de6396041cb334548c8b04faafb882e84fcint,
    );
    let e1 = lemma_step(
        7,
        e0,
        0x1b70446b03a48108d9043244f9008de6396041cb334548c8b04faafb882e84fcint,
        5,
        0x6978fb565c97a8472d11f47bb83e8c91c762710959b25b5e129674842f80789eint,
    );
    let e2 = lemma_step(
        7,
        e1,
        0x6978fb565c97a8472d11f47bb83e8c91c762710959b25b5e129674842f80789eint,
        0,
        0x3597a6d1eb5be2e8b81809436397be33fe280558f84de155fcfb4c43fbf1662eint,
    );
    let e3 = lemma_step(
        7,
        e2,
        0x3597a6d1eb5be2e8b81809436397be33fe280558f84de155fcfb4c43fbf1662eint,
        10,
        0x485bd06e6f1cc1309a1a297c73ebc75680e3fb275ab7f1b583884e58d2e81a71int,
    );
    let e4 = lemma_step(
        7,
        e3,
        0x485bd06e6f1cc1309a1a297c73ebc75680e3fb275ab7f1b583884e58d2e81a71int,
        13,
        0x11a3d933b45f109cc99e791f458a5b9844192a350f7880719619a296b1bac2ccint,
    );
    let e5 = lemma_step(
        7,
        e4,
        0x11a3d933b45f109cc99e791f458a5b9844192a350f7880719619a296b1bac2ccint,
        7,
        0xb31bbc68650659d3afc501327a7583e771d95585cfdb1b9b0ef89b3e3a9cc32int,
    );
    let e6 = lemma_step(
        7,
        e5,
        0xb31bbc68650659d3afc501327a7583e771d95585cfdb1b9b0ef89b3e3a9cc32int,
        12,
        0x13d4a90a5d5ce4c9fa65f217f55483de6565e14b67554a78716f9b1ab6392197int,
    );
    let e7 = lemma_step(
        7,
        e6,
        0x13d4a90a5d5ce4c9fa65f217f55483de6565e14b67554a78716f9b1ab6392197int,
        2,
        0x1ba0a48a573797bfde35bff43cd36c276f462e75b4182835f7cce7b696ff8105int,
    );
    let e8 = lemma_step(
        7,
        e7,
        0x1ba0a48a573797bfde35bff43cd36c276f462e75b4182835f7cce7b696ff8105int,
        5,
        0x403c1306874be615f00b198a172b6fa90b1636569ff6caf347684cee0ea66c45int,
    );
}

/// 7 to the order less one, over twice the product of 906349 and 2508409.
#[verifier::rlimit(40)]
proof fn lemma_power_of_7()
    ensures
        pow(7, 0x1c0861ef99359c0c5d4dae023c1688b0aec8a50ad7c25980000000nat) % (fr_modulus() as int)
            == 0x6b8e91a5c1444f4d821837d4f0338495a84c9e22d52cdf01eccdb9816ff42277int,
{
    reveal_with_fuel(scaled_power, 17);
    lemma_power_of_7_part_5();
    let e0 = lemma_step(
        7,
        0x1c0861ef99359c0c5d4dae023c1688b0aec8a50ad7c25nat,
        0x403c1306874be615f00b198a172b6fa90b1636569ff6caf347684cee0ea66c45int,
        9,
        0x6db509393662c6857124f74a8fa41e5b2aa5457b9340b549a312529621e7e46bint,
    );
    let e1 = lemma_step(
        7,
        e0,
        0x6db509393662c6857124f74a8fa41e5b2aa5457b9340b549a312529621e7e46bint,
        8,
        0x24f4d5a142e4f66e3b8f4ecf587f86c17fc2ac0b4210f4025bfde81951948040int,
    );
    let e2 = lemma_step(
        7,
        e1,
        0x24f4d5a142e4f66e3b8f4ecf587f86c17fc2ac0b4210f4025bfde81951948040int,
        0,
        0x14fed4872c23691630911d83c377ac14044c7ec571e2e88852926cb83b4b9088int,
    );
    let e3 = lemma_step(
        7,
        e2,
        0x14fed4872c23691630911d83c377ac14044c7ec571e2e88852926cb83b4b9088int,
        0,
        0x1885145d1b90d49433d59adb550ab72c858444da6d3bcf0aa8ac8144a3bab5c2int,
    );
    let e4 = lemma_step(
        7,
        e3,
        0x1885145d1b90d49433d59adb550ab72c858444da6d3bcf0aa8ac8144a3bab5c2int,
        0,
        0x14b2a0b39a3a824d933ce90c7942335942d2f02e5f5641aff8eba550b3d356b6int,
    );
    let e5 = lemma_step(
        7,
        e4,
        0x14b2a0b39a3a824d933ce90c7942335942d2f02e5f5641aff8eba550b3d356b6int,
        0,
        0x598f4e96fd80a339502b3a5da17d0df964607fdbed8ca388978450744c54b89bint,
    );
    let e6 = lemma_step(
        7,
        e5,
        0x598f4e96fd80a339502b3a5da17d0df964607fdbed8ca388978450744c54b89bint,
        0,
        0x31948f955bfd4665b4ff3800ad903fbeba36ec738be638812b2abeb1e3f68314int,
    );
    let e7 = lemma_step(
        7,
        e6,
        0x31948f955bfd4665b4ff3800ad903fbeba36ec738be638812b2abeb1e3f68314int,
        0,
        0xb7f765211532cb49ddbea91d6ac1bff86206b8463649f9a1eb3066d3cb862b6int,
    );
    let e8 = lemma_step(
        7,
        e7,
        0xb7f765211532cb49ddbea91d6ac1bff86206b8463649f9a1eb3066d3cb862b6int,
        0,
        0x6b8e91a5c1444f4d821837d4f0338495a84c9e22d52cdf01eccdb9816ff42277int,
    );
}

/// The power, raised to 906349.
#[verifier::rlimit(40)]
proof fn lemma_power_906349()
    ensures
        pow(0x6b8e91a5c1444f4d821837d4f0338495a84c9e22d52cdf01eccdb9816ff42277int, 906349) % (fr_modulus() as int)
            == 0x389379c7961dd831f328b4267269444d480d84df1c5bf46348078d2270ecbeebint,
{
    reveal_with_fuel(scaled_power, 17);
    lemma_pow0(0x6b8e91a5c1444f4d821837d4f0338495a84c9e22d52cdf01eccdb9816ff42277int);
    let e0 = lemma_step(
        0x6b8e91a5c1444f4d821837d4f0338495a84c9e22d52cdf01eccdb9816ff42277int,
        0,
        1,
        13,
        0xfa9b97d38cc60d9ab37541956344242cc35256d4ebca2140428cb68d5b57917int,
    );
    let e1 = lemma_step(
        0x6b8e91a5c1444f4d821837d4f0338495a84c9e22d52cdf01eccdb9816ff42277int,
        e0,
        0xfa9b97d38cc60d9ab37541956344242cc35256d4ebca2140428cb68d5b57917int,
        13,
        0x130ac642705a1317de9925383b7a605b08fb997bc3ac8c0097c7967b9dcb60d1int,
    );
    let e2 = lemma_step(
        0x6b8e91a5c1444f4d821837d4f0338495a84c9e22d52cdf01eccdb9816ff42277int,
        e1,
        0x130ac642705a1317de9925383b7a605b08fb997bc3ac8c0097c7967b9dcb60d1int,
        4,
        0x6933d0d8f3570d68d0361595e13bdf919182938153640b9ab6af18d8e0e900e5int,
    );
    let e3 = lemma_step(
        0x6b8e91a5c1444f4d821837d4f0338495a84c9e22d52cdf01eccdb9816ff42277int,
        e2,
        0x6933d0d8f3570d68d0361595e13bdf919182938153640b9ab6af18d8e0e900e5int,
        6,
        0x1b0e59a9316c3b5e8b06064529687bbcfaabffeddf90a312a840bdee2f1377dcint,
    );
    let e4 = lemma_step(
        0x6b8e91a5c1444f4d821837d4f0338495a84c9e22d52cdf01eccdb9816ff42277int,
        e3,
        0x1b0e59a9316c3b5e8b06064529687bbcfaabffeddf90a312a840bdee2f1377dcint,
        13,
        0x389379c7961dd831f328b4267269444d480d84df1c5bf46348078d2270ecbeebint,
    );
}

/// The power, raised to 2508409.
#[verifier::rlimit(40)]
proof fn lemma_power_2508409()
    ensures
        pow(0x6b8e91a5c1444f4d821837d4f0338495a84c9e22d52cdf01eccdb9816ff42277int, 2508409) % (fr_modulus() as int)
            == 0x3f9686d1551dd05c69a9fb8146ab07a8f48a87e3f25d8a3c15e3a8f2b97905deint,
{
    reveal_with_fuel(scaled_power, 17);
    lemma_pow0(0x6b8e91a5c1444f4d821837d4f0338495a84c9e22d52cdf01eccdb9816ff42277int);
    let e0 = lemma_step(
        0x6b8e91a5c1444f4d821837d4f0338495a84c9e22d52cdf01eccdb9816ff42277int,
        0,
        1,
        2,
        0x576eb092c074ad1a3301723363497946181285df649533c0e9789e844ea03f20int,
    );
    let e1 = lemma_step(
        0x6b8e91a5c1444f4d821837d4f0338495a84c9e22d52cdf01eccdb9816ff42277int,
        e0,
        0x576eb092c074ad1a3301723363497946181285df649533c0e9789e844ea03f20int,
        6,
        0x5041d211742d98b82df76a6de9464ee565060b150e72d9c8c63e75b3b736adc1int,
    );
    let e2 = lemma_step(
        0x6b8e91a5c1444f4d821837d4f0338495a84c9e22d52cdf01eccdb9816ff42277int,
        e1,
        0x5041d211742d98b82df76a6de9464ee565060b150e72d9c8c63e75b3b736adc1int,
        4,
        0x478731ef69c5efeecf167e26c2bf92d008439b0e21239b8684da17951b4128dcint,
    );
    let e3 = lemma_step(
        0x6b8e91a5c1444f4d821837d4f0338495a84c9e22d52cdf01eccdb9816ff42277int,
        e2,
        0x478731ef69c5efeecf167e26c2bf92d008439b0e21239b8684da17951b4128dcint,
        6,
        0x361e5ca6c4d21c1054a9ddd6123993a2759b2cd18c3e0ac88650b887f8f4c8d9int,
    );
    let e4 = lemma_step(
        0x6b8e91a5c1444f4d821837d4f0338495a84c9e22d52cdf01eccdb9816ff42277int,
        e3,
        0x361e5ca6c4d21c1054a9ddd6123993a2759b2cd18c3e0ac88650b887f8f4c8d9int,
        7,
        0x58315a941e3a2b41547077873540f984b4c2453a2035e33f2e6f7377ef0f73e1int,
    );
    let e5 = lemma_step(
        0x6b8e91a5c1444f4d821837d4f0338495a84c9e22d52cdf01eccdb9816ff42277int,
        e4,
        0x58315a941e3a2b41547077873540f984b4c2453a2035e33f2e6f7377ef0f73e1int,
        9,
        0x3f9686d1551dd05c69a9fb8146ab07a8f48a87e3f25d8a3c15e3a8f2b97905deint,
    );
}

/// The power, raised to 906349 and to 2508409, is minus one.
#[verifier::rlimit(40)]
proof fn lemma_power_both()
    ensures
        pow(0x389379c7961dd831f328b4267269444d480d84df1c5bf46348078d2270ecbeebint, 2508409) % (fr_modulus() as int)
            == 0x73eda753299d7d483339d80809a1d80553bda402fffe5bfeffffffff00000000int,
{
    reveal_with_fuel(scaled_power, 17);
    lemma_pow0(0x389379c7961dd831f328b4267269444d480d84df1c5bf46348078d2270ecbeebint);
    let e0 = lemma_step(
        0x389379c7961dd831f328b4267269444d480d84df1c5bf46348078d2270ecbeebint,
        0,
        1,
        2,
        0x86fb27a35f67dd3f695a1e882f5bdb7c92d2f844520e02c83a6bcd031849292int,
    );
    let e1 = lemma_step(
        0x389379c7961dd831f328b4267269444d480d84df1c5bf46348078d2270ecbeebint,
        e0,
        0x86fb27a35f67dd3f695a1e882f5bdb7c92d2f844520e02c83a6bcd031849292int,
        6,
        0x72235603ac8ec6d5e39e4e7c9ad9a43f0ee25571acb4e00b12c514d33a204525int,
    );
    let e2 = lemma_step(
        0x389379c7961dd831f328b4267269444d480d84df1c5bf46348078d2270ecbeebint,
        e1,
        0x72235603ac8ec6d5e39e4e7c9ad9a43f0ee25571acb4e00b12c514d33a204525int,
        4,
        0x2d7b1742102bdbeae64457bf93184cddeb42554031e7b8cfb528b3d3dae233b0int,
    );
    let e3 = lemma_step(
        0x389379c7961dd831f328b4267269444d480d84df1c5bf46348078d2270ecbeebint,
        e2,
        0x2d7b1742102bdbeae64457bf93184cddeb42554031e7b8cfb528b3d3dae233b0int,
        6,
        0x657bc4e36668deaee62b6d18d89646a8d7df9b3ab447e16b159bdc69252b4bf6int,
    );
    let e4 = lemma_step(
        0x389379c7961dd831f328b4267269444d480d84df1c5bf46348078d2270ecbeebint,
        e3,
        0x657bc4e36668deaee62b6d18d89646a8d7df9b3ab447e16b159bdc69252b4bf6int,
        7,
        0x28f5889214d95426688e29a74be56993c9c7c41e02d658af46670b886f0ac72dint,
    );
    let e5 = lemma_step(
        0x389379c7961dd831f328b4267269444d480d84df1c5bf46348078d2270ecbeebint,
        e4,
        0x28f5889214d95426688e29a74be56993c9c7c41e02d658af46670b886f0ac72dint,
        9,
        0x73eda753299d7d483339d80809a1d80553bda402fffe5bfeffffffff00000000int,
    );
}

/// The square of the power, raised to 906349.
proof fn lemma_first_square()
    ensures
        pow(0x389379c7961dd831f328b4267269444d480d84df1c5bf46348078d2270ecbeebint, 2) % (fr_modulus() as int)
            == 0x86fb27a35f67dd3f695a1e882f5bdb7c92d2f844520e02c83a6bcd031849292int,
{
    reveal_with_fuel(scaled_power, 17);
    lemma_pow0(0x389379c7961dd831f328b4267269444d480d84df1c5bf46348078d2270ecbeebint);
    let e = lemma_step(
        0x389379c7961dd831f328b4267269444d480d84df1c5bf46348078d2270ecbeebint,
        0,
        1,
        2,
        0x86fb27a35f67dd3f695a1e882f5bdb7c92d2f844520e02c83a6bcd031849292int,
    );
}

/// The square of the power, raised to 2508409.
proof fn lemma_second_square()
    ensures
        pow(0x3f9686d1551dd05c69a9fb8146ab07a8f48a87e3f25d8a3c15e3a8f2b97905deint, 2) % (fr_modulus() as int)
            == 0x67ee5d1f3b069511cd89744d5897256537cb1d8475a21d7924a57ba2b69a4d76int,
{
    reveal_with_fuel(scaled_power, 17);
    lemma_pow0(0x3f9686d1551dd05c69a9fb8146ab07a8f48a87e3f25d8a3c15e3a8f2b97905deint);
    let e = lemma_step(
        0x3f9686d1551dd05c69a9fb8146ab07a8f48a87e3f25d8a3c15e3a8f2b97905deint,
        0,
        1,
        2,
        0x67ee5d1f3b069511cd89744d5897256537cb1d8475a21d7924a57ba2b69a4d76int,
    );
}

/// The square of minus one.
proof fn lemma_square_of_minus_one()
    ensures
        pow(0x73eda753299d7d483339d80809a1d80553bda402fffe5bfeffffffff00000000int, 2) % (fr_modulus() as int)
            == 1,
{
    reveal_with_fuel(scaled_power, 17);
    lemma_pow0(0x73eda753299d7d483339d80809a1d80553bda402fffe5bfeffffffff00000000int);
    let e = lemma_step(
        0x73eda753299d7d483339d80809a1d80553bda402fffe5bfeffffffff00000000int,
        0,
        1,
        2,
        1,
    );
}

/// The powers of 7 that the criterion asks for.
proof fn lemma_powers()
    ensures
        pow(7, 0x73eda753299d7d483339d80809a1d80553bda402fffe5bfeffffffff00000000nat) % (fr_modulus() as int) == 1,
        pow(7, 0x39f6d3a994cebea4199cec0404d0ec02a9ded2017fff2dff7fffffff80000000nat) % (fr_modulus() as int)
            == 0x73eda753299d7d483339d80809a1d80553bda402fffe5bfeffffffff00000000int,
        pow(7, 0x861ec289d183279aff9c657418da9b481ba2bf325fff0d0aa9b00000000nat) % (fr_modulus() as int)
            == 0x67ee5d1f3b069511cd89744d5897256537cb1d8475a21d7924a57ba2b69a4d76int,
        pow(7, 0x3075fb3adcb3b1b5cd6f3c893fbb65f86c851eb506a52b6bc3700000000nat) % (fr_modulus() as int)
            == 0x86fb27a35f67dd3f695a1e882f5bdb7c92d2f844520e02c83a6bcd031849292int,
{
    lemma_power_of_7();
    lemma_power_906349();
    lemma_power_2508409();
    lemma_power_both();
    lemma_first_square();
    lemma_second_square();
    lemma_square_of_minus_one();
    lemma_compose(
        fr_modulus(),
        7,
        0x1c0861ef99359c0c5d4dae023c1688b0aec8a50ad7c25980000000nat,
        0x6b8e91a5c1444f4d821837d4f0338495a84c9e22d52cdf01eccdb9816ff42277int,
        906349,
        0x389379c7961dd831f328b4267269444d480d84df1c5bf46348078d2270ecbeebint,
    );
    lemma_compose(
        fr_modulus(),
        7,
        0x183afd9d6e59d8dae6b79e449fddb2fc36428f5a835295b5e1b80000000nat,
        0x389379c7961dd831f328b4267269444d480d84df1c5bf46348078d2270ecbeebint,
        2,
        0x86fb27a35f67dd3f695a1e882f5bdb7c92d2f844520e02c83a6bcd031849292int,
    );
    lemma_compose(
        fr_modulus(),
        7,
        0x1c0861ef99359c0c5d4dae023c1688b0aec8a50ad7c25980000000nat,
        0x6b8e91a5c1444f4d821837d4f0338495a84c9e22d52cdf01eccdb9816ff42277int,
        2508409,
        0x3f9686d1551dd05c69a9fb8146ab07a8f48a87e3f25d8a3c15e3a8f2b97905deint,
    );
    lemma_compose(
        fr_modulus(),
        7,
        0x430f6144e8c193cd7fce32ba0c6d4da40dd15f992fff868554d80000000nat,
        0x3f9686d1551dd05c69a9fb8146ab07a8f48a87e3f25d8a3c15e3a8f2b97905deint,
        2,
        0x67ee5d1f3b069511cd89744d5897256537cb1d8475a21d7924a57ba2b69a4d76int,
    );
    lemma_compose(
        fr_modulus(),
        7,
        0x183afd9d6e59d8dae6b79e449fddb2fc36428f5a835295b5e1b80000000nat,
        0x389379c7961dd831f328b4267269444d480d84df1c5bf46348078d2270ecbeebint,
        2508409,
        0x73eda753299d7d483339d80809a1d80553bda402fffe5bfeffffffff00000000int,
    );
    lemma_compose(
        fr_modulus(),
        7,
        0x39f6d3a994cebea4199cec0404d0ec02a9ded2017fff2dff7fffffff80000000nat,
        0x73eda753299d7d483339d80809a1d80553bda402fffe5bfeffffffff00000000int,
        2,
        1,
    );
}

/// Every prime divisor of the order is one modulo `2^32`, modulo the square of
/// 906349 and modulo 2508409.
proof fn lemma_divisor_of_order(p: nat, cofactor: nat)
    requires
        is_prime(p),
        fr_modulus() == p * cofactor,
    ensures
        (p - 1) % 0x1_0000_0000 == 0,
        (p - 1) % 821468509801 == 0,
        (p - 1) % 2508409 == 0,
{
    lemma_powers();
    lemma_small_primes();
    lemma_906349_prime();
    lemma_2508409_prime();
    assert(pow(2, 32) == 0x1_0000_0000 && pow(2, 31) == 0x8000_0000) by {
        reveal_with_fuel(pow, 33);
    }
    lemma_power_divides(
        fr_modulus(),
        p,
        cofactor,
        7,
        2,
        32,
        0x73eda753299d7d483339d80809a1d80553bda402fffe5bfeffffffffnat,
        0x73eda753299d7d483339d80809a1d80553bda402fffe5bfeffffffff00000000int,
        0x39f6d3a994cebea4199cec0404d0ec02a9ded2017fff2dff7fffffff80000000int,
    );
    assert(pow(906349, 2) == 821468509801 && pow(906349, 1) == 906349) by {
        reveal_with_fuel(pow, 3);
    }
    lemma_power_divides(
        fr_modulus(),
        p,
        cofactor,
        7,
        906349,
        2,
        0x9b2aac5cb03735abfa2ea182f30c744caba516b26dc62700000000nat,
        0x67ee5d1f3b069511cd89744d5897256537cb1d8475a21d7924a57ba2b69a4d76int,
        0x4073079c76e730aa62741bebe6d9531e37410dc18dff928c35a724b5ba8ff759int,
    );
    lemma_pow0(2508409);
    lemma_pow1(2508409);
    lemma_power_divides(
        fr_modulus(),
        p,
        cofactor,
        7,
        2508409,
        1,
        0x3075fb3adcb3b1b5cd6f3c893fbb65f86c851eb506a52b6bc3700000000nat,
        0x86fb27a35f67dd3f695a1e882f5bdb7c92d2f844520e02c83a6bcd031849292int,
        0x4bd4579a7ed0b159bae3f9d404951933dca75e9e6fc27fff9fb1a8073210f0abint,
    );
}

/// **The order of the scalar field is prime.**
pub proof fn lemma_order_prime()
    ensures
        is_prime(fr_modulus()),
{
    let n = fr_modulus();
    let p = lemma_prime_divisor(n);
    lemma_divisor_of_order(p, n / p);
    lemma_product_divides(
        0x1_0000_0000,
        821468509801,
        572553298425,
        2993538599,
        (p - 1) as nat,
    );
    lemma_product_divides(
        0xbf4356b66900000000nat,
        2508409,
        1793136,
        0x88b97075a352b6bc37nat,
        (p - 1) as nat,
    );
    lemma_sole_divisor_by_digits(
        n,
        p,
        n / p,
        0x1c98a5af9d72eda100000000nat,
        0x244abe812670028f22nat,
        0x182761577d34796caf2bc99fnat,
        0x182761577d34796caf2bc99enat,
    );
}

} // verus!
