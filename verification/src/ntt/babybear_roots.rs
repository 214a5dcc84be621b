//! Facts about the BabyBear prime that the transforms over it rely on, each
//! settled by evaluating modular powers: the prime factors of `p - 1`, the
//! least generator (31), and the roots of unity derived from it.

use vstd::prelude::*;
use vstd::arithmetic::div_mod::*;
use vstd::arithmetic::mul::*;
use vstd::arithmetic::power::*;
use crate::field::babybear::BABYBEAR_PRIME;
use crate::math::powmod::{
    lemma_pow_minus_one, lemma_pow_mod_spec, lemma_pow_mod_step, lemma_pow_mod_zero, pow_mod_spec,
};
use crate::math::cyclic::{lemma_prime_from_full_order, no_proper_order};
use crate::math::binomial::lemma_fermat_prime;
use crate::math::primes::{is_prime, lemma_euclid, lemma_prime_divides_prime};
use super::cpu::{
    has_generator, is_least_generator, lemma_least_generator_unique, least_generator,
    passes_generator_test, root_of_unity_spec,
};
use super::transform::{is_pow2, lemma_pow2_divides, lemma_pow2_even, lemma_pow2_pos};
use super::dft::is_root_table;

verus! {

/// `2^k`.
pub open spec fn two_pow(k: nat) -> int
    decreases k,
{
    if k == 0 {
        1
    } else {
        2 * two_pow((k - 1) as nat)
    }
}

proof fn lemma_small_primes()
    ensures
        is_prime(2),
        is_prime(3),
        is_prime(5),
{
    assert(is_prime(5)) by {
        assert forall|d: int| 2 <= d < 5 implies #[trigger] (5int % d) != 0 by {
            if d == 2 {
            } else if d == 3 {
            } else {
                assert(d == 4);
            }
        }
    }
}

/// A prime dividing `2^k` is 2.
proof fn lemma_prime_divides_two_pow(q: int, k: nat)
    requires
        is_prime(q),
        two_pow(k) % q == 0,
    ensures
        q == 2,
    decreases k,
{
    lemma_small_primes();
    if k == 0 {
        lemma_small_mod(1, q as nat);
    } else {
        assert(two_pow(k) >= 1) by {
            lemma_two_pow_pos(k);
        }
        lemma_two_pow_pos((k - 1) as nat);
        lemma_euclid(2, two_pow((k - 1) as nat), q);
        if 2int % q == 0 {
            lemma_prime_divides_prime(q, 2);
        } else {
            lemma_prime_divides_two_pow(q, (k - 1) as nat);
        }
    }
}

proof fn lemma_two_pow_pos(k: nat)
    ensures
        two_pow(k) >= 1,
    decreases k,
{
    if k > 0 {
        lemma_two_pow_pos((k - 1) as nat);
    }
}

/// The primes dividing `p - 1 = 2^27 * 3 * 5` are 2, 3 and 5.
pub proof fn lemma_babybear_prime_divisors(q: int)
    requires
        is_prime(q),
        (BABYBEAR_PRIME - 1) % q == 0,
    ensures
        q == 2 || q == 3 || q == 5,
{
    lemma_small_primes();
    assert(two_pow(27) == 134217728) by {
        reveal_with_fuel(two_pow, 28);
    }
    assert(BABYBEAR_PRIME - 1 == two_pow(27) * 15);
    lemma_two_pow_pos(27);
    lemma_euclid(two_pow(27), 15, q);
    if two_pow(27) % q == 0 {
        lemma_prime_divides_two_pow(q, 27);
    } else {
        assert(15 == 3int * 5int);
        lemma_euclid(3, 5, q);
        if 3int % q == 0 {
            lemma_prime_divides_prime(q, 3);
        } else {
            lemma_prime_divides_prime(q, 5);
        }
    }
}

#[verifier::spinoff_prover]
#[verifier::rlimit(40)]
pub proof fn lemma_eval_2_half()
    ensures
        pow_mod_spec(2, 1006632960, 2013265921) == 1,
{
    lemma_pow_mod_zero(2, 2013265921);
    assert(pow_mod_spec(2, 0, 2013265921) == 1);
    lemma_pow_mod_step(2, 1, 2013265921, 1);
    assert(pow_mod_spec(2, 1, 2013265921) == 2);
    lemma_pow_mod_step(2, 3, 2013265921, 2);
    assert(pow_mod_spec(2, 3, 2013265921) == 8);
    lemma_pow_mod_step(2, 7, 2013265921, 8);
    assert(pow_mod_spec(2, 7, 2013265921) == 128);
    lemma_pow_mod_step(2, 15, 2013265921, 128);
    assert(pow_mod_spec(2, 15, 2013265921) == 32768);
    lemma_pow_mod_step(2, 30, 2013265921, 32768);
    assert(pow_mod_spec(2, 30, 2013265921) == 1073741824);
    lemma_pow_mod_step(2, 60, 2013265921, 1073741824);
    assert(pow_mod_spec(2, 60, 2013265921) == 1709039071);
    lemma_pow_mod_step(2, 120, 2013265921, 1709039071);
    assert(pow_mod_spec(2, 120, 2013265921) == 584553003);
    lemma_pow_mod_step(2, 240, 2013265921, 584553003);
    assert(pow_mod_spec(2, 240, 2013265921) == 563168684);
    lemma_pow_mod_step(2, 480, 2013265921, 563168684);
    assert(pow_mod_spec(2, 480, 2013265921) == 1584030254);
    lemma_pow_mod_step(2, 960, 2013265921, 1584030254);
    assert(pow_mod_spec(2, 960, 2013265921) == 158733553);
    lemma_pow_mod_step(2, 1920, 2013265921, 158733553);
    assert(pow_mod_spec(2, 1920, 2013265921) == 1763939212);
    lemma_pow_mod_step(2, 3840, 2013265921, 1763939212);
    assert(pow_mod_spec(2, 3840, 2013265921) == 691259344);
    lemma_pow_mod_step(2, 7680, 2013265921, 691259344);
    assert(pow_mod_spec(2, 7680, 2013265921) == 850357859);
    lemma_pow_mod_step(2, 15360, 2013265921, 850357859);
    assert(pow_mod_spec(2, 15360, 2013265921) == 696955690);
    lemma_pow_mod_step(2, 30720, 2013265921, 696955690);
    assert(pow_mod_spec(2, 30720, 2013265921) == 1816803640);
    lemma_pow_mod_step(2, 61440, 2013265921, 1816803640);
    assert(pow_mod_spec(2, 61440, 2013265921) == 1601241332);
    lemma_pow_mod_step(2, 122880, 2013265921, 1601241332);
    assert(pow_mod_spec(2, 122880, 2013265921) == 58735780);
    lemma_pow_mod_step(2, 245760, 2013265921, 58735780);
    assert(pow_mod_spec(2, 245760, 2013265921) == 1648567141);
    lemma_pow_mod_step(2, 491520, 2013265921, 1648567141);
    assert(pow_mod_spec(2, 491520, 2013265921) == 1061973763);
    lemma_pow_mod_step(2, 983040, 2013265921, 1061973763);
    assert(pow_mod_spec(2, 983040, 2013265921) == 1653077195);
    lemma_pow_mod_step(2, 1966080, 2013265921, 1653077195);
    assert(pow_mod_spec(2, 1966080, 2013265921) == 1397122709);
    lemma_pow_mod_step(2, 3932160, 2013265921, 1397122709);
    assert(pow_mod_spec(2, 3932160, 2013265921) == 919403943);
    lemma_pow_mod_step(2, 7864320, 2013265921, 919403943);
    assert(pow_mod_spec(2, 7864320, 2013265921) == 7658004);
    lemma_pow_mod_step(2, 15728640, 2013265921, 7658004);
    assert(pow_mod_spec(2, 15728640, 2013265921) == 602251207);
    lemma_pow_mod_step(2, 31457280, 2013265921, 602251207);
    assert(pow_mod_spec(2, 31457280, 2013265921) == 889310574);
    lemma_pow_mod_step(2, 62914560, 2013265921, 889310574);
    assert(pow_mod_spec(2, 62914560, 2013265921) == 1816869661);
    lemma_pow_mod_step(2, 125829120, 2013265921, 1816869661);
    assert(pow_mod_spec(2, 125829120, 2013265921) == 1592366214);
    lemma_pow_mod_step(2, 251658240, 2013265921, 1592366214);
    assert(pow_mod_spec(2, 251658240, 2013265921) == 1728404513);
    lemma_pow_mod_step(2, 503316480, 2013265921, 1728404513);
    assert(pow_mod_spec(2, 503316480, 2013265921) == 2013265920);
    lemma_pow_mod_step(2, 1006632960, 2013265921, 2013265920);
    assert(pow_mod_spec(2, 1006632960, 2013265921) == 1);
}

#[verifier::spinoff_prover]
#[verifier::rlimit(40)]
proof fn lemma_eval_3_half()
    ensures
        pow_mod_spec(3, 1006632960, 2013265921) == 1,
{
    lemma_pow_mod_zero(3, 2013265921);
    assert(pow_mod_spec(3, 0, 2013265921) == 1);
    lemma_pow_mod_step(3, 1, 2013265921, 1);
    assert(pow_mod_spec(3, 1, 2013265921) == 3);
    lemma_pow_mod_step(3, 3, 2013265921, 3);
    assert(pow_mod_spec(3, 3, 2013265921) == 27);
    lemma_pow_mod_step(3, 7, 2013265921, 27);
    assert(pow_mod_spec(3, 7, 2013265921) == 2187);
    lemma_pow_mod_step(3, 15, 2013265921, 2187);
    assert(pow_mod_spec(3, 15, 2013265921) == 14348907);
    lemma_pow_mod_step(3, 30, 2013265921, 14348907);
    assert(pow_mod_spec(3, 30, 2013265921) == 466151742);
    lemma_pow_mod_step(3, 60, 2013265921, 466151742);
    assert(pow_mod_spec(3, 60, 2013265921) == 452132475);
    lemma_pow_mod_step(3, 120, 2013265921, 452132475);
    assert(pow_mod_spec(3, 120, 2013265921) == 729216198);
    lemma_pow_mod_step(3, 240, 2013265921, 729216198);
    assert(pow_mod_spec(3, 240, 2013265921) == 215206451);
    lemma_pow_mod_step(3, 480, 2013265921, 215206451);
    assert(pow_mod_spec(3, 480, 2013265921) == 1046970760);
    lemma_pow_mod_step(3, 960, 2013265921, 1046970760);
    assert(pow_mod_spec(3, 960, 2013265921) == 1954972073);
    lemma_pow_mod_step(3, 1920, 2013265921, 1954972073);
    assert(pow_mod_spec(3, 1920, 2013265921) == 1299250414);
    lemma_pow_mod_step(3, 3840, 2013265921, 1299250414);
    assert(pow_mod_spec(3, 3840, 2013265921) == 875264518);
    lemma_pow_mod_step(3, 7680, 2013265921, 875264518);
    assert(pow_mod_spec(3, 7680, 2013265921) == 25129430);
    lemma_pow_mod_step(3, 15360, 2013265921, 25129430);
    assert(pow_mod_spec(3, 15360, 2013265921) == 1223546277);
    lemma_pow_mod_step(3, 30720, 2013265921, 1223546277);
    assert(pow_mod_spec(3, 30720, 2013265921) == 830180096);
    lemma_pow_mod_step(3, 61440, 2013265921, 830180096);
    assert(pow_mod_spec(3, 61440, 2013265921) == 420575734);
    lemma_pow_mod_step(3, 122880, 2013265921, 420575734);
    assert(pow_mod_spec(3, 122880, 2013265921) == 730454109);
    lemma_pow_mod_step(3, 245760, 2013265921, 730454109);
    assert(pow_mod_spec(3, 245760, 2013265921) == 1754996971);
    lemma_pow_mod_step(3, 491520, 2013265921, 1754996971);
    assert(pow_mod_spec(3, 491520, 2013265921) == 496879956);
    lemma_pow_mod_step(3, 983040, 2013265921, 496879956);
    assert(pow_mod_spec(3, 983040, 2013265921) == 1745735301);
    lemma_pow_mod_step(3, 1966080, 2013265921, 1745735301);
    assert(pow_mod_spec(3, 1966080, 2013265921) == 367148769);
    lemma_pow_mod_step(3, 3932160, 2013265921, 367148769);
    assert(pow_mod_spec(3, 3932160, 2013265921) == 850926282);
    lemma_pow_mod_step(3, 7864320, 2013265921, 850926282);
    assert(pow_mod_spec(3, 7864320, 2013265921) == 1606274035);
    lemma_pow_mod_step(3, 15728640, 2013265921, 1606274035);
    assert(pow_mod_spec(3, 15728640, 2013265921) == 1424376889);
    lemma_pow_mod_step(3, 31457280, 2013265921, 1424376889);
    assert(pow_mod_spec(3, 31457280, 2013265921) == 612986503);
    lemma_pow_mod_step(3, 62914560, 2013265921, 612986503);
    assert(pow_mod_spec(3, 62914560, 2013265921) == 420899707);
    lemma_pow_mod_step(3, 125829120, 2013265921, 420899707);
    assert(pow_mod_spec(3, 125829120, 2013265921) == 1728404513);
    lemma_pow_mod_step(3, 251658240, 2013265921, 1728404513);
    assert(pow_mod_spec(3, 251658240, 2013265921) == 2013265920);
    lemma_pow_mod_step(3, 503316480, 2013265921, 2013265920);
    assert(pow_mod_spec(3, 503316480, 2013265921) == 1);
    lemma_pow_mod_step(3, 1006632960, 2013265921, 1);
    assert(pow_mod_spec(3, 1006632960, 2013265921) == 1);
}

#[verifier::spinoff_prover]
#[verifier::rlimit(40)]
proof fn lemma_eval_5_half()
    ensures
        pow_mod_spec(5, 1006632960, 2013265921) == 1,
{
    lemma_pow_mod_zero(5, 2013265921);
    assert(pow_mod_spec(5, 0, 2013265921) == 1);
    lemma_pow_mod_step(5, 1, 2013265921, 1);
    assert(pow_mod_spec(5, 1, 2013265921) == 5);
    lemma_pow_mod_step(5, 3, 2013265921, 5);
    assert(pow_mod_spec(5, 3, 2013265921) == 125);
    lemma_pow_mod_step(5, 7, 2013265921, 125);
    assert(pow_mod_spec(5, 7, 2013265921) == 78125);
    lemma_pow_mod_step(5, 15, 2013265921, 78125);
    assert(pow_mod_spec(5, 15, 2013265921) == 318589310);
    lemma_pow_mod_step(5, 30, 2013265921, 318589310);
    assert(pow_mod_spec(5, 30, 2013265921) == 757322688);
    lemma_pow_mod_step(5, 60, 2013265921, 757322688);
    assert(pow_mod_spec(5, 60, 2013265921) == 346760830);
    lemma_pow_mod_step(5, 120, 2013265921, 346760830);
    assert(pow_mod_spec(5, 120, 2013265921) == 1049513920);
    lemma_pow_mod_step(5, 240, 2013265921, 1049513920);
    assert(pow_mod_spec(5, 240, 2013265921) == 20697230);
    lemma_pow_mod_step(5, 480, 2013265921, 20697230);
    assert(pow_mod_spec(5, 480, 2013265921) == 660066204);
    lemma_pow_mod_step(5, 960, 2013265921, 660066204);
    assert(pow_mod_spec(5, 960, 2013265921) == 662668867);
    lemma_pow_mod_step(5, 1920, 2013265921, 662668867);
    assert(pow_mod_spec(5, 1920, 2013265921) == 1910766886);
    lemma_pow_mod_step(5, 3840, 2013265921, 1910766886);
    assert(pow_mod_spec(5, 3840, 2013265921) == 1134593773);
    lemma_pow_mod_step(5, 7680, 2013265921, 1134593773);
    assert(pow_mod_spec(5, 7680, 2013265921) == 792745678);
    lemma_pow_mod_step(5, 15360, 2013265921, 792745678);
    assert(pow_mod_spec(5, 15360, 2013265921) == 1439956124);
    lemma_pow_mod_step(5, 30720, 2013265921, 1439956124);
    assert(pow_mod_spec(5, 30720, 2013265921) == 84435639);
    lemma_pow_mod_step(5, 61440, 2013265921, 84435639);
    assert(pow_mod_spec(5, 61440, 2013265921) == 1867159042);
    lemma_pow_mod_step(5, 122880, 2013265921, 1867159042);
    assert(pow_mod_spec(5, 122880, 2013265921) == 1842831603);
    lemma_pow_mod_step(5, 245760, 2013265921, 1842831603);
    assert(pow_mod_spec(5, 245760, 2013265921) == 1045838978);
    lemma_pow_mod_step(5, 491520, 2013265921, 1045838978);
    assert(pow_mod_spec(5, 491520, 2013265921) == 893603615);
    lemma_pow_mod_step(5, 983040, 2013265921, 893603615);
    assert(pow_mod_spec(5, 983040, 2013265921) == 554304165);
    lemma_pow_mod_step(5, 1966080, 2013265921, 554304165);
    assert(pow_mod_spec(5, 1966080, 2013265921) == 500320476);
    lemma_pow_mod_step(5, 3932160, 2013265921, 500320476);
    assert(pow_mod_spec(5, 3932160, 2013265921) == 776161080);
    lemma_pow_mod_step(5, 7864320, 2013265921, 776161080);
    assert(pow_mod_spec(5, 7864320, 2013265921) == 1900691439);
    lemma_pow_mod_step(5, 15728640, 2013265921, 1900691439);
    assert(pow_mod_spec(5, 15728640, 2013265921) == 288289890);
    lemma_pow_mod_step(5, 31457280, 2013265921, 288289890);
    assert(pow_mod_spec(5, 31457280, 2013265921) == 772607190);
    lemma_pow_mod_step(5, 62914560, 2013265921, 772607190);
    assert(pow_mod_spec(5, 62914560, 2013265921) == 78945800);
    lemma_pow_mod_step(5, 125829120, 2013265921, 78945800);
    assert(pow_mod_spec(5, 125829120, 2013265921) == 211723194);
    lemma_pow_mod_step(5, 251658240, 2013265921, 211723194);
    assert(pow_mod_spec(5, 251658240, 2013265921) == 284861408);
    lemma_pow_mod_step(5, 503316480, 2013265921, 284861408);
    assert(pow_mod_spec(5, 503316480, 2013265921) == 2013265920);
    lemma_pow_mod_step(5, 1006632960, 2013265921, 2013265920);
    assert(pow_mod_spec(5, 1006632960, 2013265921) == 1);
}

#[verifier::spinoff_prover]
#[verifier::rlimit(40)]
proof fn lemma_eval_7_half()
    ensures
        pow_mod_spec(7, 1006632960, 2013265921) == 1,
{
    lemma_pow_mod_zero(7, 2013265921);
    assert(pow_mod_spec(7, 0, 2013265921) == 1);
    lemma_pow_mod_step(7, 1, 2013265921, 1);
    assert(pow_mod_spec(7, 1, 2013265921) == 7);
    lemma_pow_mod_step(7, 3, 2013265921, 7);
    assert(pow_mod_spec(7, 3, 2013265921) == 343);
    lemma_pow_mod_step(7, 7, 2013265921, 343);
    assert(pow_mod_spec(7, 7, 2013265921) == 823543);
    lemma_pow_mod_step(7, 15, 2013265921, 823543);
    assert(pow_mod_spec(7, 15, 2013265921) == 280468225);
    lemma_pow_mod_step(7, 30, 2013265921, 280468225);
    assert(pow_mod_spec(7, 30, 2013265921) == 519308496);
    lemma_pow_mod_step(7, 60, 2013265921, 519308496);
    assert(pow_mod_spec(7, 60, 2013265921) == 1285240419);
    lemma_pow_mod_step(7, 120, 2013265921, 1285240419);
    assert(pow_mod_spec(7, 120, 2013265921) == 1585997101);
    lemma_pow_mod_step(7, 240, 2013265921, 1585997101);
    assert(pow_mod_spec(7, 240, 2013265921) == 1230249261);
    lemma_pow_mod_step(7, 480, 2013265921, 1230249261);
    assert(pow_mod_spec(7, 480, 2013265921) == 638328761);
    lemma_pow_mod_step(7, 960, 2013265921, 638328761);
    assert(pow_mod_spec(7, 960, 2013265921) == 1832262719);
    lemma_pow_mod_step(7, 1920, 2013265921, 1832262719);
    assert(pow_mod_spec(7, 1920, 2013265921) == 944590864);
    lemma_pow_mod_step(7, 3840, 2013265921, 944590864);
    assert(pow_mod_spec(7, 3840, 2013265921) == 1748993144);
    lemma_pow_mod_step(7, 7680, 2013265921, 1748993144);
    assert(pow_mod_spec(7, 7680, 2013265921) == 487300016);
    lemma_pow_mod_step(7, 15360, 2013265921, 487300016);
    assert(pow_mod_spec(7, 15360, 2013265921) == 684120430);
    lemma_pow_mod_step(7, 30720, 2013265921, 684120430);
    assert(pow_mod_spec(7, 30720, 2013265921) == 955808633);
    lemma_pow_mod_step(7, 61440, 2013265921, 955808633);
    assert(pow_mod_spec(7, 61440, 2013265921) == 988901331);
    lemma_pow_mod_step(7, 122880, 2013265921, 988901331);
    assert(pow_mod_spec(7, 122880, 2013265921) == 455792141);
    lemma_pow_mod_step(7, 245760, 2013265921, 455792141);
    assert(pow_mod_spec(7, 245760, 2013265921) == 1461138291);
    lemma_pow_mod_step(7, 491520, 2013265921, 1461138291);
    assert(pow_mod_spec(7, 491520, 2013265921) == 1137453511);
    lemma_pow_mod_step(7, 983040, 2013265921, 1137453511);
    assert(pow_mod_spec(7, 983040, 2013265921) == 1336637787);
    lemma_pow_mod_step(7, 1966080, 2013265921, 1336637787);
    assert(pow_mod_spec(7, 1966080, 2013265921) == 238307585);
    lemma_pow_mod_step(7, 3932160, 2013265921, 238307585);
    assert(pow_mod_spec(7, 3932160, 2013265921) == 2005607917);
    lemma_pow_mod_step(7, 7864320, 2013265921, 2005607917);
    assert(pow_mod_spec(7, 7864320, 2013265921) == 602251207);
    lemma_pow_mod_step(7, 15728640, 2013265921, 602251207);
    assert(pow_mod_spec(7, 15728640, 2013265921) == 889310574);
    lemma_pow_mod_step(7, 31457280, 2013265921, 889310574);
    assert(pow_mod_spec(7, 31457280, 2013265921) == 1816869661);
    lemma_pow_mod_step(7, 62914560, 2013265921, 1816869661);
    assert(pow_mod_spec(7, 62914560, 2013265921) == 1592366214);
    lemma_pow_mod_step(7, 125829120, 2013265921, 1592366214);
    assert(pow_mod_spec(7, 125829120, 2013265921) == 1728404513);
    lemma_pow_mod_step(7, 251658240, 2013265921, 1728404513);
    assert(pow_mod_spec(7, 251658240, 2013265921) == 2013265920);
    lemma_pow_mod_step(7, 503316480, 2013265921, 2013265920);
    assert(pow_mod_spec(7, 503316480, 2013265921) == 1);
    lemma_pow_mod_step(7, 1006632960, 2013265921, 1);
    assert(pow_mod_spec(7, 1006632960, 2013265921) == 1);
}

#[verifier::spinoff_prover]
#[verifier::rlimit(40)]
proof fn lemma_eval_13_half()
    ensures
        pow_mod_spec(13, 1006632960, 2013265921) == 1,
{
    lemma_pow_mod_zero(13, 2013265921);
    assert(pow_mod_spec(13, 0, 2013265921) == 1);
    lemma_pow_mod_step(13, 1, 2013265921, 1);
    assert(pow_mod_spec(13, 1, 2013265921) == 13);
    lemma_pow_mod_step(13, 3, 2013265921, 13);
    assert(pow_mod_spec(13, 3, 2013265921) == 2197);
    lemma_pow_mod_step(13, 7, 2013265921, 2197);
    assert(pow_mod_spec(13, 7, 2013265921) == 62748517);
    lemma_pow_mod_step(13, 15, 2013265921, 62748517);
    assert(pow_mod_spec(13, 15, 2013265921) == 152683089);
    lemma_pow_mod_step(13, 30, 2013265921, 152683089);
    assert(pow_mod_spec(13, 30, 2013265921) == 144715303);
    lemma_pow_mod_step(13, 60, 2013265921, 144715303);
    assert(pow_mod_spec(13, 60, 2013265921) == 1349734428);
    lemma_pow_mod_step(13, 120, 2013265921, 1349734428);
    assert(pow_mod_spec(13, 120, 2013265921) == 608829127);
    lemma_pow_mod_step(13, 240, 2013265921, 608829127);
    assert(pow_mod_spec(13, 240, 2013265921) == 1880366746);
    lemma_pow_mod_step(13, 480, 2013265921, 1880366746);
    assert(pow_mod_spec(13, 480, 2013265921) == 51010120);
    lemma_pow_mod_step(13, 960, 2013265921, 51010120);
    assert(pow_mod_spec(13, 960, 2013265921) == 895679397);
    lemma_pow_mod_step(13, 1920, 2013265921, 895679397);
    assert(pow_mod_spec(13, 1920, 2013265921) == 468758225);
    lemma_pow_mod_step(13, 3840, 2013265921, 468758225);
    assert(pow_mod_spec(13, 3840, 2013265921) == 515858951);
    lemma_pow_mod_step(13, 7680, 2013265921, 515858951);
    assert(pow_mod_spec(13, 7680, 2013265921) == 1880783348);
    lemma_pow_mod_step(13, 15360, 2013265921, 1880783348);
    assert(pow_mod_spec(13, 15360, 2013265921) == 1995347460);
    lemma_pow_mod_step(13, 30720, 2013265921, 1995347460);
    assert(pow_mod_spec(13, 30720, 2013265921) == 1635325204);
    lemma_pow_mod_step(13, 61440, 2013265921, 1635325204);
    assert(pow_mod_spec(13, 61440, 2013265921) == 1870104299);
    lemma_pow_mod_step(13, 122880, 2013265921, 1870104299);
    assert(pow_mod_spec(13, 122880, 2013265921) == 1611298784);
    lemma_pow_mod_step(13, 245760, 2013265921, 1611298784);
    assert(pow_mod_spec(13, 245760, 2013265921) == 1489270398);
    lemma_pow_mod_step(13, 491520, 2013265921, 1489270398);
    assert(pow_mod_spec(13, 491520, 2013265921) == 1981707926);
    lemma_pow_mod_step(13, 983040, 2013265921, 1981707926);
    assert(pow_mod_spec(13, 983040, 2013265921) == 768747113);
    lemma_pow_mod_step(13, 1966080, 2013265921, 768747113);
    assert(pow_mod_spec(13, 1966080, 2013265921) == 176704060);
    lemma_pow_mod_step(13, 3932160, 2013265921, 176704060);
    assert(pow_mod_spec(13, 3932160, 2013265921) == 1817843431);
    lemma_pow_mod_step(13, 7864320, 2013265921, 1817843431);
    assert(pow_mod_spec(13, 7864320, 2013265921) == 312665187);
    lemma_pow_mod_step(13, 15728640, 2013265921, 312665187);
    assert(pow_mod_spec(13, 15728640, 2013265921) == 841453531);
    lemma_pow_mod_step(13, 31457280, 2013265921, 841453531);
    assert(pow_mod_spec(13, 31457280, 2013265921) == 614075160);
    lemma_pow_mod_step(13, 62914560, 2013265921, 614075160);
    assert(pow_mod_spec(13, 62914560, 2013265921) == 1446056615);
    lemma_pow_mod_step(13, 125829120, 2013265921, 1446056615);
    assert(pow_mod_spec(13, 125829120, 2013265921) == 1801542727);
    lemma_pow_mod_step(13, 251658240, 2013265921, 1801542727);
    assert(pow_mod_spec(13, 251658240, 2013265921) == 284861408);
    lemma_pow_mod_step(13, 503316480, 2013265921, 284861408);
    assert(pow_mod_spec(13, 503316480, 2013265921) == 2013265920);
    lemma_pow_mod_step(13, 1006632960, 2013265921, 2013265920);
    assert(pow_mod_spec(13, 1006632960, 2013265921) == 1);
}

#[verifier::spinoff_prover]
#[verifier::rlimit(40)]
proof fn lemma_eval_17_half()
    ensures
        pow_mod_spec(17, 1006632960, 2013265921) == 1,
{
    lemma_pow_mod_zero(17, 2013265921);
    assert(pow_mod_spec(17, 0, 2013265921) == 1);
    lemma_pow_mod_step(17, 1, 2013265921, 1);
    assert(pow_mod_spec(17, 1, 2013265921) == 17);
    lemma_pow_mod_step(17, 3, 2013265921, 17);
    assert(pow_mod_spec(17, 3, 2013265921) == 4913);
    lemma_pow_mod_step(17, 7, 2013265921, 4913);
    assert(pow_mod_spec(17, 7, 2013265921) == 410338673);
    lemma_pow_mod_step(17, 15, 2013265921, 410338673);
    assert(pow_mod_spec(17, 15, 2013265921) == 291713604);
    lemma_pow_mod_step(17, 30, 2013265921, 291713604);
    assert(pow_mod_spec(17, 30, 2013265921) == 133278845);
    lemma_pow_mod_step(17, 60, 2013265921, 133278845);
    assert(pow_mod_spec(17, 60, 2013265921) == 1963693004);
    lemma_pow_mod_step(17, 120, 2013265921, 1963693004);
    assert(pow_mod_spec(17, 120, 2013265921) == 1186079449);
    lemma_pow_mod_step(17, 240, 2013265921, 1186079449);
    assert(pow_mod_spec(17, 240, 2013265921) == 886844122);
    lemma_pow_mod_step(17, 480, 2013265921, 886844122);
    assert(pow_mod_spec(17, 480, 2013265921) == 1720931676);
    lemma_pow_mod_step(17, 960, 2013265921, 1720931676);
    assert(pow_mod_spec(17, 960, 2013265921) == 1685051767);
    lemma_pow_mod_step(17, 1920, 2013265921, 1685051767);
    assert(pow_mod_spec(17, 1920, 2013265921) == 568118603);
    lemma_pow_mod_step(17, 3840, 2013265921, 568118603);
    assert(pow_mod_spec(17, 3840, 2013265921) == 1643837846);
    lemma_pow_mod_step(17, 7680, 2013265921, 1643837846);
    assert(pow_mod_spec(17, 7680, 2013265921) == 273469515);
    lemma_pow_mod_step(17, 15360, 2013265921, 273469515);
    assert(pow_mod_spec(17, 15360, 2013265921) == 466298588);
    lemma_pow_mod_step(17, 30720, 2013265921, 466298588);
    assert(pow_mod_spec(17, 30720, 2013265921) == 811472603);
    lemma_pow_mod_step(17, 61440, 2013265921, 811472603);
    assert(pow_mod_spec(17, 61440, 2013265921) == 2002754789);
    lemma_pow_mod_step(17, 122880, 2013265921, 2002754789);
    assert(pow_mod_spec(17, 122880, 2013265921) == 1901974707);
    lemma_pow_mod_step(17, 245760, 2013265921, 1901974707);
    assert(pow_mod_spec(17, 245760, 2013265921) == 1571646536);
    lemma_pow_mod_step(17, 491520, 2013265921, 1571646536);
    assert(pow_mod_spec(17, 491520, 2013265921) == 234608688);
    lemma_pow_mod_step(17, 983040, 2013265921, 234608688);
    assert(pow_mod_spec(17, 983040, 2013265921) == 1796202227);
    lemma_pow_mod_step(17, 1966080, 2013265921, 1796202227);
    assert(pow_mod_spec(17, 1966080, 2013265921) == 1696563825);
    lemma_pow_mod_step(17, 3932160, 2013265921, 1696563825);
    assert(pow_mod_spec(17, 3932160, 2013265921) == 1990050040);
    lemma_pow_mod_step(17, 7864320, 2013265921, 1990050040);
    assert(pow_mod_spec(17, 7864320, 2013265921) == 1684363409);
    lemma_pow_mod_step(17, 15728640, 2013265921, 1684363409);
    assert(pow_mod_spec(17, 15728640, 2013265921) == 1561292356);
    lemma_pow_mod_step(17, 31457280, 2013265921, 1561292356);
    assert(pow_mod_spec(17, 31457280, 2013265921) == 1934320121);
    lemma_pow_mod_step(17, 62914560, 2013265921, 1934320121);
    assert(pow_mod_spec(17, 62914560, 2013265921) == 211723194);
    lemma_pow_mod_step(17, 125829120, 2013265921, 211723194);
    assert(pow_mod_spec(17, 125829120, 2013265921) == 284861408);
    lemma_pow_mod_step(17, 251658240, 2013265921, 284861408);
    assert(pow_mod_spec(17, 251658240, 2013265921) == 2013265920);
    lemma_pow_mod_step(17, 503316480, 2013265921, 2013265920);
    assert(pow_mod_spec(17, 503316480, 2013265921) == 1);
    lemma_pow_mod_step(17, 1006632960, 2013265921, 1);
    assert(pow_mod_spec(17, 1006632960, 2013265921) == 1);
}

#[verifier::spinoff_prover]
#[verifier::rlimit(40)]
proof fn lemma_eval_19_half()
    ensures
        pow_mod_spec(19, 1006632960, 2013265921) == 1,
{
    lemma_pow_mod_zero(19, 2013265921);
    assert(pow_mod_spec(19, 0, 2013265921) == 1);
    lemma_pow_mod_step(19, 1, 2013265921, 1);
    assert(pow_mod_spec(19, 1, 2013265921) == 19);
    lemma_pow_mod_step(19, 3, 2013265921, 19);
    assert(pow_mod_spec(19, 3, 2013265921) == 6859);
    lemma_pow_mod_step(19, 7, 2013265921, 6859);
    assert(pow_mod_spec(19, 7, 2013265921) == 893871739);
    lemma_pow_mod_step(19, 15, 2013265921, 893871739);
    assert(pow_mod_spec(19, 15, 2013265921) == 273747897);
    lemma_pow_mod_step(19, 30, 2013265921, 273747897);
    assert(pow_mod_spec(19, 30, 2013265921) == 164707586);
    lemma_pow_mod_step(19, 60, 2013265921, 164707586);
    assert(pow_mod_spec(19, 60, 2013265921) == 1728075681);
    lemma_pow_mod_step(19, 120, 2013265921, 1728075681);
    assert(pow_mod_spec(19, 120, 2013265921) == 60142667);
    lemma_pow_mod_step(19, 240, 2013265921, 60142667);
    assert(pow_mod_spec(19, 240, 2013265921) == 137110476);
    lemma_pow_mod_step(19, 480, 2013265921, 137110476);
    assert(pow_mod_spec(19, 480, 2013265921) == 1385361192);
    lemma_pow_mod_step(19, 960, 2013265921, 1385361192);
    assert(pow_mod_spec(19, 960, 2013265921) == 674867821);
    lemma_pow_mod_step(19, 1920, 2013265921, 674867821);
    assert(pow_mod_spec(19, 1920, 2013265921) == 545460160);
    lemma_pow_mod_step(19, 3840, 2013265921, 545460160);
    assert(pow_mod_spec(19, 3840, 2013265921) == 514396687);
    lemma_pow_mod_step(19, 7680, 2013265921, 514396687);
    assert(pow_mod_spec(19, 7680, 2013265921) == 893298085);
    lemma_pow_mod_step(19, 15360, 2013265921, 893298085);
    assert(pow_mod_spec(19, 15360, 2013265921) == 1903828103);
    lemma_pow_mod_step(19, 30720, 2013265921, 1903828103);
    assert(pow_mod_spec(19, 30720, 2013265921) == 915066985);
    lemma_pow_mod_step(19, 61440, 2013265921, 915066985);
    assert(pow_mod_spec(19, 61440, 2013265921) == 907308780);
    lemma_pow_mod_step(19, 122880, 2013265921, 907308780);
    assert(pow_mod_spec(19, 122880, 2013265921) == 1418753397);
    lemma_pow_mod_step(19, 245760, 2013265921, 1418753397);
    assert(pow_mod_spec(19, 245760, 2013265921) == 1307340476);
    lemma_pow_mod_step(19, 491520, 2013265921, 1307340476);
    assert(pow_mod_spec(19, 491520, 2013265921) == 2011976633);
    lemma_pow_mod_step(19, 983040, 2013265921, 2011976633);
    assert(pow_mod_spec(19, 983040, 2013265921) == 1319162119);
    lemma_pow_mod_step(19, 1966080, 2013265921, 1319162119);
    assert(pow_mod_spec(19, 1966080, 2013265921) == 468145086);
    lemma_pow_mod_step(19, 3932160, 2013265921, 468145086);
    assert(pow_mod_spec(19, 3932160, 2013265921) == 1774958336);
    lemma_pow_mod_step(19, 7864320, 2013265921, 1774958336);
    assert(pow_mod_spec(19, 7864320, 2013265921) == 2005607917);
    lemma_pow_mod_step(19, 15728640, 2013265921, 2005607917);
    assert(pow_mod_spec(19, 15728640, 2013265921) == 602251207);
    lemma_pow_mod_step(19, 31457280, 2013265921, 602251207);
    assert(pow_mod_spec(19, 31457280, 2013265921) == 889310574);
    lemma_pow_mod_step(19, 62914560, 2013265921, 889310574);
    assert(pow_mod_spec(19, 62914560, 2013265921) == 1816869661);
    lemma_pow_mod_step(19, 125829120, 2013265921, 1816869661);
    assert(pow_mod_spec(19, 125829120, 2013265921) == 1592366214);
    lemma_pow_mod_step(19, 251658240, 2013265921, 1592366214);
    assert(pow_mod_spec(19, 251658240, 2013265921) == 1728404513);
    lemma_pow_mod_step(19, 503316480, 2013265921, 1728404513);
    assert(pow_mod_spec(19, 503316480, 2013265921) == 2013265920);
    lemma_pow_mod_step(19, 1006632960, 2013265921, 2013265920);
    assert(pow_mod_spec(19, 1006632960, 2013265921) == 1);
}

#[verifier::spinoff_prover]
#[verifier::rlimit(40)]
proof fn lemma_eval_29_half()
    ensures
        pow_mod_spec(29, 1006632960, 2013265921) == 1,
{
    lemma_pow_mod_zero(29, 2013265921);
    assert(pow_mod_spec(29, 0, 2013265921) == 1);
    lemma_pow_mod_step(29, 1, 2013265921, 1);
    assert(pow_mod_spec(29, 1, 2013265921) == 29);
    lemma_pow_mod_step(29, 3, 2013265921, 29);
    assert(pow_mod_spec(29, 3, 2013265921) == 24389);
    lemma_pow_mod_step(29, 7, 2013265921, 24389);
    assert(pow_mod_spec(29, 7, 2013265921) == 1143748941);
    lemma_pow_mod_step(29, 15, 2013265921, 1143748941);
    assert(pow_mod_spec(29, 15, 2013265921) == 1885549609);
    lemma_pow_mod_step(29, 30, 2013265921, 1885549609);
    assert(pow_mod_spec(29, 30, 2013265921) == 18130396);
    lemma_pow_mod_step(29, 60, 2013265921, 18130396);
    assert(pow_mod_spec(29, 60, 2013265921) == 1305663304);
    lemma_pow_mod_step(29, 120, 2013265921, 1305663304);
    assert(pow_mod_spec(29, 120, 2013265921) == 347174142);
    lemma_pow_mod_step(29, 240, 2013265921, 347174142);
    assert(pow_mod_spec(29, 240, 2013265921) == 824289603);
    lemma_pow_mod_step(29, 480, 2013265921, 824289603);
    assert(pow_mod_spec(29, 480, 2013265921) == 756145800);
    lemma_pow_mod_step(29, 960, 2013265921, 756145800);
    assert(pow_mod_spec(29, 960, 2013265921) == 110280369);
    lemma_pow_mod_step(29, 1920, 2013265921, 110280369);
    assert(pow_mod_spec(29, 1920, 2013265921) == 865274230);
    lemma_pow_mod_step(29, 3840, 2013265921, 865274230);
    assert(pow_mod_spec(29, 3840, 2013265921) == 1806894640);
    lemma_pow_mod_step(29, 7680, 2013265921, 1806894640);
    assert(pow_mod_spec(29, 7680, 2013265921) == 1184723684);
    lemma_pow_mod_step(29, 15360, 2013265921, 1184723684);
    assert(pow_mod_spec(29, 15360, 2013265921) == 497682033);
    lemma_pow_mod_step(29, 30720, 2013265921, 497682033);
    assert(pow_mod_spec(29, 30720, 2013265921) == 686308624);
    lemma_pow_mod_step(29, 61440, 2013265921, 686308624);
    assert(pow_mod_spec(29, 61440, 2013265921) == 1973335767);
    lemma_pow_mod_step(29, 122880, 2013265921, 1973335767);
    assert(pow_mod_spec(29, 122880, 2013265921) == 1185998161);
    lemma_pow_mod_step(29, 245760, 2013265921, 1185998161);
    assert(pow_mod_spec(29, 245760, 2013265921) == 1998932138);
    lemma_pow_mod_step(29, 491520, 2013265921, 1998932138);
    assert(pow_mod_spec(29, 491520, 2013265921) == 1534587118);
    lemma_pow_mod_step(29, 983040, 2013265921, 1534587118);
    assert(pow_mod_spec(29, 983040, 2013265921) == 239770140);
    lemma_pow_mod_step(29, 1966080, 2013265921, 239770140);
    assert(pow_mod_spec(29, 1966080, 2013265921) == 1665268308);
    lemma_pow_mod_step(29, 3932160, 2013265921, 1665268308);
    assert(pow_mod_spec(29, 3932160, 2013265921) == 559308147);
    lemma_pow_mod_step(29, 7864320, 2013265921, 559308147);
    assert(pow_mod_spec(29, 7864320, 2013265921) == 1881002012);
    lemma_pow_mod_step(29, 15728640, 2013265921, 1881002012);
    assert(pow_mod_spec(29, 15728640, 2013265921) == 918899846);
    lemma_pow_mod_step(29, 31457280, 2013265921, 918899846);
    assert(pow_mod_spec(29, 31457280, 2013265921) == 740045640);
    lemma_pow_mod_step(29, 62914560, 2013265921, 740045640);
    assert(pow_mod_spec(29, 62914560, 2013265921) == 567209306);
    lemma_pow_mod_step(29, 125829120, 2013265921, 567209306);
    assert(pow_mod_spec(29, 125829120, 2013265921) == 1801542727);
    lemma_pow_mod_step(29, 251658240, 2013265921, 1801542727);
    assert(pow_mod_spec(29, 251658240, 2013265921) == 284861408);
    lemma_pow_mod_step(29, 503316480, 2013265921, 284861408);
    assert(pow_mod_spec(29, 503316480, 2013265921) == 2013265920);
    lemma_pow_mod_step(29, 1006632960, 2013265921, 2013265920);
    assert(pow_mod_spec(29, 1006632960, 2013265921) == 1);
}

#[verifier::spinoff_prover]
#[verifier::rlimit(40)]
proof fn lemma_eval_11_third()
    ensures
        pow_mod_spec(11, 671088640, 2013265921) == 1,
{
    lemma_pow_mod_zero(11, 2013265921);
    assert(pow_mod_spec(11, 0, 2013265921) == 1);
    lemma_pow_mod_step(11, 1, 2013265921, 1);
    assert(pow_mod_spec(11, 1, 2013265921) == 11);
    lemma_pow_mod_step(11, 2, 2013265921, 11);
    assert(pow_mod_spec(11, 2, 2013265921) == 121);
    lemma_pow_mod_step(11, 5, 2013265921, 121);
    assert(pow_mod_spec(11, 5, 2013265921) == 161051);
    lemma_pow_mod_step(11, 10, 2013265921, 161051);
    assert(pow_mod_spec(11, 10, 2013265921) == 1778233549);
    lemma_pow_mod_step(11, 20, 2013265921, 1778233549);
    assert(pow_mod_spec(11, 20, 2013265921) == 61765232);
    lemma_pow_mod_step(11, 40, 2013265921, 61765232);
    assert(pow_mod_spec(11, 40, 2013265921) == 250513161);
    lemma_pow_mod_step(11, 80, 2013265921, 250513161);
    assert(pow_mod_spec(11, 80, 2013265921) == 1041947140);
    lemma_pow_mod_step(11, 160, 2013265921, 1041947140);
    assert(pow_mod_spec(11, 160, 2013265921) == 1381401184);
    lemma_pow_mod_step(11, 320, 2013265921, 1381401184);
    assert(pow_mod_spec(11, 320, 2013265921) == 40280676);
    lemma_pow_mod_step(11, 640, 2013265921, 40280676);
    assert(pow_mod_spec(11, 640, 2013265921) == 1587964656);
    lemma_pow_mod_step(11, 1280, 2013265921, 1587964656);
    assert(pow_mod_spec(11, 1280, 2013265921) == 21225338);
    lemma_pow_mod_step(11, 2560, 2013265921, 21225338);
    assert(pow_mod_spec(11, 2560, 2013265921) == 418274311);
    lemma_pow_mod_step(11, 5120, 2013265921, 418274311);
    assert(pow_mod_spec(11, 5120, 2013265921) == 820709868);
    lemma_pow_mod_step(11, 10240, 2013265921, 820709868);
    assert(pow_mod_spec(11, 10240, 2013265921) == 465136145);
    lemma_pow_mod_step(11, 20480, 2013265921, 465136145);
    assert(pow_mod_spec(11, 20480, 2013265921) == 1478251447);
    lemma_pow_mod_step(11, 40960, 2013265921, 1478251447);
    assert(pow_mod_spec(11, 40960, 2013265921) == 45486528);
    lemma_pow_mod_step(11, 81920, 2013265921, 45486528);
    assert(pow_mod_spec(11, 81920, 2013265921) == 908812689);
    lemma_pow_mod_step(11, 163840, 2013265921, 908812689);
    assert(pow_mod_spec(11, 163840, 2013265921) == 1735478436);
    lemma_pow_mod_step(11, 327680, 2013265921, 1735478436);
    assert(pow_mod_spec(11, 327680, 2013265921) == 1183733315);
    lemma_pow_mod_step(11, 655360, 2013265921, 1183733315);
    assert(pow_mod_spec(11, 655360, 2013265921) == 166266897);
    lemma_pow_mod_step(11, 1310720, 2013265921, 166266897);
    assert(pow_mod_spec(11, 1310720, 2013265921) == 1214352228);
    lemma_pow_mod_step(11, 2621440, 2013265921, 1214352228);
    assert(pow_mod_spec(11, 2621440, 2013265921) == 1107635944);
    lemma_pow_mod_step(11, 5242880, 2013265921, 1107635944);
    assert(pow_mod_spec(11, 5242880, 2013265921) == 1230352802);
    lemma_pow_mod_step(11, 10485760, 2013265921, 1230352802);
    assert(pow_mod_spec(11, 10485760, 2013265921) == 1074029057);
    lemma_pow_mod_step(11, 20971520, 2013265921, 1074029057);
    assert(pow_mod_spec(11, 20971520, 2013265921) == 1399190761);
    lemma_pow_mod_step(11, 41943040, 2013265921, 1399190761);
    assert(pow_mod_spec(11, 41943040, 2013265921) == 1446056615);
    lemma_pow_mod_step(11, 83886080, 2013265921, 1446056615);
    assert(pow_mod_spec(11, 83886080, 2013265921) == 1801542727);
    lemma_pow_mod_step(11, 167772160, 2013265921, 1801542727);
    assert(pow_mod_spec(11, 167772160, 2013265921) == 284861408);
    lemma_pow_mod_step(11, 335544320, 2013265921, 284861408);
    assert(pow_mod_spec(11, 335544320, 2013265921) == 2013265920);
    lemma_pow_mod_step(11, 671088640, 2013265921, 2013265920);
    assert(pow_mod_spec(11, 671088640, 2013265921) == 1);
}

#[verifier::spinoff_prover]
#[verifier::rlimit(40)]
proof fn lemma_eval_23_third()
    ensures
        pow_mod_spec(23, 671088640, 2013265921) == 1,
{
    lemma_pow_mod_zero(23, 2013265921);
    assert(pow_mod_spec(23, 0, 2013265921) == 1);
    lemma_pow_mod_step(23, 1, 2013265921, 1);
    assert(pow_mod_spec(23, 1, 2013265921) == 23);
    lemma_pow_mod_step(23, 2, 2013265921, 23);
    assert(pow_mod_spec(23, 2, 2013265921) == 529);
    lemma_pow_mod_step(23, 5, 2013265921, 529);
    assert(pow_mod_spec(23, 5, 2013265921) == 6436343);
    lemma_pow_mod_step(23, 10, 2013265921, 6436343);
    assert(pow_mod_spec(23, 10, 2013265921) == 1551623153);
    lemma_pow_mod_step(23, 20, 2013265921, 1551623153);
    assert(pow_mod_spec(23, 20, 2013265921) == 625232213);
    lemma_pow_mod_step(23, 40, 2013265921, 625232213);
    assert(pow_mod_spec(23, 40, 2013265921) == 1754712750);
    lemma_pow_mod_step(23, 80, 2013265921, 1754712750);
    assert(pow_mod_spec(23, 80, 2013265921) == 288804695);
    lemma_pow_mod_step(23, 160, 2013265921, 288804695);
    assert(pow_mod_spec(23, 160, 2013265921) == 338273908);
    lemma_pow_mod_step(23, 320, 2013265921, 338273908);
    assert(pow_mod_spec(23, 320, 2013265921) == 1509908128);
    lemma_pow_mod_step(23, 640, 2013265921, 1509908128);
    assert(pow_mod_spec(23, 640, 2013265921) == 574281232);
    lemma_pow_mod_step(23, 1280, 2013265921, 574281232);
    assert(pow_mod_spec(23, 1280, 2013265921) == 410725082);
    lemma_pow_mod_step(23, 2560, 2013265921, 410725082);
    assert(pow_mod_spec(23, 2560, 2013265921) == 128561685);
    lemma_pow_mod_step(23, 5120, 2013265921, 128561685);
    assert(pow_mod_spec(23, 5120, 2013265921) == 958263546);
    lemma_pow_mod_step(23, 10240, 2013265921, 958263546);
    assert(pow_mod_spec(23, 10240, 2013265921) == 1548355519);
    lemma_pow_mod_step(23, 20480, 2013265921, 1548355519);
    assert(pow_mod_spec(23, 20480, 2013265921) == 1403897590);
    lemma_pow_mod_step(23, 40960, 2013265921, 1403897590);
    assert(pow_mod_spec(23, 40960, 2013265921) == 616795113);
    lemma_pow_mod_step(23, 81920, 2013265921, 616795113);
    assert(pow_mod_spec(23, 81920, 2013265921) == 506034859);
    lemma_pow_mod_step(23, 163840, 2013265921, 506034859);
    assert(pow_mod_spec(23, 163840, 2013265921) == 1777902222);
    lemma_pow_mod_step(23, 327680, 2013265921, 1777902222);
    assert(pow_mod_spec(23, 327680, 2013265921) == 12773155);
    lemma_pow_mod_step(23, 655360, 2013265921, 12773155);
    assert(pow_mod_spec(23, 655360, 2013265921) == 431682106);
    lemma_pow_mod_step(23, 1310720, 2013265921, 431682106);
    assert(pow_mod_spec(23, 1310720, 2013265921) == 804607908);
    lemma_pow_mod_step(23, 2621440, 2013265921, 804607908);
    assert(pow_mod_spec(23, 2621440, 2013265921) == 717108123);
    lemma_pow_mod_step(23, 5242880, 2013265921, 717108123);
    assert(pow_mod_spec(23, 5242880, 2013265921) == 1229036302);
    lemma_pow_mod_step(23, 10485760, 2013265921, 1229036302);
    assert(pow_mod_spec(23, 10485760, 2013265921) == 1917679203);
    lemma_pow_mod_step(23, 20971520, 2013265921, 1917679203);
    assert(pow_mod_spec(23, 20971520, 2013265921) == 1835875777);
    lemma_pow_mod_step(23, 41943040, 2013265921, 1835875777);
    assert(pow_mod_spec(23, 41943040, 2013265921) == 1400279418);
    lemma_pow_mod_step(23, 83886080, 2013265921, 1400279418);
    assert(pow_mod_spec(23, 83886080, 2013265921) == 420899707);
    lemma_pow_mod_step(23, 167772160, 2013265921, 420899707);
    assert(pow_mod_spec(23, 167772160, 2013265921) == 1728404513);
    lemma_pow_mod_step(23, 335544320, 2013265921, 1728404513);
    assert(pow_mod_spec(23, 335544320, 2013265921) == 2013265920);
    lemma_pow_mod_step(23, 671088640, 2013265921, 2013265920);
    assert(pow_mod_spec(23, 671088640, 2013265921) == 1);
}

#[verifier::spinoff_prover]
#[verifier::rlimit(40)]
proof fn lemma_eval_22_fifth()
    ensures
        pow_mod_spec(22, 402653184, 2013265921) == 1,
{
    lemma_pow_mod_zero(22, 2013265921);
    assert(pow_mod_spec(22, 0, 2013265921) == 1);
    lemma_pow_mod_step(22, 1, 2013265921, 1);
    assert(pow_mod_spec(22, 1, 2013265921) == 22);
    lemma_pow_mod_step(22, 3, 2013265921, 22);
    assert(pow_mod_spec(22, 3, 2013265921) == 10648);
    lemma_pow_mod_step(22, 6, 2013265921, 10648);
    assert(pow_mod_spec(22, 6, 2013265921) == 113379904);
    lemma_pow_mod_step(22, 12, 2013265921, 113379904);
    assert(pow_mod_spec(22, 12, 2013265921) == 1762107908);
    lemma_pow_mod_step(22, 24, 2013265921, 1762107908);
    assert(pow_mod_spec(22, 24, 2013265921) == 1054061582);
    lemma_pow_mod_step(22, 48, 2013265921, 1054061582);
    assert(pow_mod_spec(22, 48, 2013265921) == 1288892457);
    lemma_pow_mod_step(22, 96, 2013265921, 1288892457);
    assert(pow_mod_spec(22, 96, 2013265921) == 190980465);
    lemma_pow_mod_step(22, 192, 2013265921, 190980465);
    assert(pow_mod_spec(22, 192, 2013265921) == 600695783);
    lemma_pow_mod_step(22, 384, 2013265921, 600695783);
    assert(pow_mod_spec(22, 384, 2013265921) == 1378527636);
    lemma_pow_mod_step(22, 768, 2013265921, 1378527636);
    assert(pow_mod_spec(22, 768, 2013265921) == 77715381);
    lemma_pow_mod_step(22, 1536, 2013265921, 77715381);
    assert(pow_mod_spec(22, 1536, 2013265921) == 1463664500);
    lemma_pow_mod_step(22, 3072, 2013265921, 1463664500);
    assert(pow_mod_spec(22, 3072, 2013265921) == 487157961);
    lemma_pow_mod_step(22, 6144, 2013265921, 487157961);
    assert(pow_mod_spec(22, 6144, 2013265921) == 181127892);
    lemma_pow_mod_step(22, 12288, 2013265921, 181127892);
    assert(pow_mod_spec(22, 12288, 2013265921) == 1542625536);
    lemma_pow_mod_step(22, 24576, 2013265921, 1542625536);
    assert(pow_mod_spec(22, 24576, 2013265921) == 553452247);
    lemma_pow_mod_step(22, 49152, 2013265921, 553452247);
    assert(pow_mod_spec(22, 49152, 2013265921) == 1273791010);
    lemma_pow_mod_step(22, 98304, 2013265921, 1273791010);
    assert(pow_mod_spec(22, 98304, 2013265921) == 1288509368);
    lemma_pow_mod_step(22, 196608, 2013265921, 1288509368);
    assert(pow_mod_spec(22, 196608, 2013265921) == 1975208675);
    lemma_pow_mod_step(22, 393216, 2013265921, 1975208675);
    assert(pow_mod_spec(22, 393216, 2013265921) == 403207511);
    lemma_pow_mod_step(22, 786432, 2013265921, 403207511);
    assert(pow_mod_spec(22, 786432, 2013265921) == 375944201);
    lemma_pow_mod_step(22, 1572864, 2013265921, 375944201);
    assert(pow_mod_spec(22, 1572864, 2013265921) == 330889263);
    lemma_pow_mod_step(22, 3145728, 2013265921, 330889263);
    assert(pow_mod_spec(22, 3145728, 2013265921) == 49104518);
    lemma_pow_mod_step(22, 6291456, 2013265921, 49104518);
    assert(pow_mod_spec(22, 6291456, 2013265921) == 1333217202);
    lemma_pow_mod_step(22, 12582912, 2013265921, 1333217202);
    assert(pow_mod_spec(22, 12582912, 2013265921) == 451973565);
    lemma_pow_mod_step(22, 25165824, 2013265921, 451973565);
    assert(pow_mod_spec(22, 25165824, 2013265921) == 1934320121);
    lemma_pow_mod_step(22, 50331648, 2013265921, 1934320121);
    assert(pow_mod_spec(22, 50331648, 2013265921) == 211723194);
    lemma_pow_mod_step(22, 100663296, 2013265921, 211723194);
    assert(pow_mod_spec(22, 100663296, 2013265921) == 284861408);
    lemma_pow_mod_step(22, 201326592, 2013265921, 284861408);
    assert(pow_mod_spec(22, 201326592, 2013265921) == 2013265920);
    lemma_pow_mod_step(22, 402653184, 2013265921, 2013265920);
    assert(pow_mod_spec(22, 402653184, 2013265921) == 1);
}

#[verifier::spinoff_prover]
#[verifier::rlimit(40)]
pub proof fn lemma_eval_31_half()
    ensures
        pow_mod_spec(31, 1006632960, 2013265921) == 2013265920,
{
    lemma_pow_mod_zero(31, 2013265921);
    assert(pow_mod_spec(31, 0, 2013265921) == 1);
    lemma_pow_mod_step(31, 1, 2013265921, 1);
    assert(pow_mod_spec(31, 1, 2013265921) == 31);
    lemma_pow_mod_step(31, 3, 2013265921, 31);
    assert(pow_mod_spec(31, 3, 2013265921) == 29791);
    lemma_pow_mod_step(31, 7, 2013265921, 29791);
    assert(pow_mod_spec(31, 7, 2013265921) == 1340157138);
    lemma_pow_mod_step(31, 15, 2013265921, 1340157138);
    assert(pow_mod_spec(31, 15, 2013265921) == 440564289);
    lemma_pow_mod_step(31, 30, 2013265921, 440564289);
    assert(pow_mod_spec(31, 30, 2013265921) == 975630072);
    lemma_pow_mod_step(31, 60, 2013265921, 975630072);
    assert(pow_mod_spec(31, 60, 2013265921) == 1149491290);
    lemma_pow_mod_step(31, 120, 2013265921, 1149491290);
    assert(pow_mod_spec(31, 120, 2013265921) == 1003846038);
    lemma_pow_mod_step(31, 240, 2013265921, 1003846038);
    assert(pow_mod_spec(31, 240, 2013265921) == 1267047229);
    lemma_pow_mod_step(31, 480, 2013265921, 1267047229);
    assert(pow_mod_spec(31, 480, 2013265921) == 570250684);
    lemma_pow_mod_step(31, 960, 2013265921, 570250684);
    assert(pow_mod_spec(31, 960, 2013265921) == 414040701);
    lemma_pow_mod_step(31, 1920, 2013265921, 414040701);
    assert(pow_mod_spec(31, 1920, 2013265921) == 195061667);
    lemma_pow_mod_step(31, 3840, 2013265921, 195061667);
    assert(pow_mod_spec(31, 3840, 2013265921) == 1049899240);
    lemma_pow_mod_step(31, 7680, 2013265921, 1049899240);
    assert(pow_mod_spec(31, 7680, 2013265921) == 1559589183);
    lemma_pow_mod_step(31, 15360, 2013265921, 1559589183);
    assert(pow_mod_spec(31, 15360, 2013265921) == 1286330022);
    lemma_pow_mod_step(31, 30720, 2013265921, 1286330022);
    assert(pow_mod_spec(31, 30720, 2013265921) == 1421947380);
    lemma_pow_mod_step(31, 61440, 2013265921, 1421947380);
    assert(pow_mod_spec(31, 61440, 2013265921) == 2009781145);
    lemma_pow_mod_step(31, 122880, 2013265921, 2009781145);
    assert(pow_mod_spec(31, 122880, 2013265921) == 1657000625);
    lemma_pow_mod_step(31, 245760, 2013265921, 1657000625);
    assert(pow_mod_spec(31, 245760, 2013265921) == 298008106);
    lemma_pow_mod_step(31, 491520, 2013265921, 298008106);
    assert(pow_mod_spec(31, 491520, 2013265921) == 1282623253);
    lemma_pow_mod_step(31, 983040, 2013265921, 1282623253);
    assert(pow_mod_spec(31, 983040, 2013265921) == 1340477990);
    lemma_pow_mod_step(31, 1966080, 2013265921, 1340477990);
    assert(pow_mod_spec(31, 1966080, 2013265921) == 341742893);
    lemma_pow_mod_step(31, 3932160, 2013265921, 341742893);
    assert(pow_mod_spec(31, 3932160, 2013265921) == 1753498361);
    lemma_pow_mod_step(31, 7864320, 2013265921, 1753498361);
    assert(pow_mod_spec(31, 7864320, 2013265921) == 1732600167);
    lemma_pow_mod_step(31, 15728640, 2013265921, 1732600167);
    assert(pow_mod_spec(31, 15728640, 2013265921) == 397765732);
    lemma_pow_mod_step(31, 31457280, 2013265921, 397765732);
    assert(pow_mod_spec(31, 31457280, 2013265921) == 1721589904);
    lemma_pow_mod_step(31, 62914560, 2013265921, 1721589904);
    assert(pow_mod_spec(31, 62914560, 2013265921) == 760005850);
    lemma_pow_mod_step(31, 125829120, 2013265921, 760005850);
    assert(pow_mod_spec(31, 125829120, 2013265921) == 196396260);
    lemma_pow_mod_step(31, 251658240, 2013265921, 196396260);
    assert(pow_mod_spec(31, 251658240, 2013265921) == 1592366214);
    lemma_pow_mod_step(31, 503316480, 2013265921, 1592366214);
    assert(pow_mod_spec(31, 503316480, 2013265921) == 1728404513);
    lemma_pow_mod_step(31, 1006632960, 2013265921, 1728404513);
    assert(pow_mod_spec(31, 1006632960, 2013265921) == 2013265920);
}

#[verifier::spinoff_prover]
#[verifier::rlimit(40)]
proof fn lemma_eval_31_third()
    ensures
        pow_mod_spec(31, 671088640, 2013265921) == 1314723123,
{
    lemma_pow_mod_zero(31, 2013265921);
    assert(pow_mod_spec(31, 0, 2013265921) == 1);
    lemma_pow_mod_step(31, 1, 2013265921, 1);
    assert(pow_mod_spec(31, 1, 2013265921) == 31);
    lemma_pow_mod_step(31, 2, 2013265921, 31);
    assert(pow_mod_spec(31, 2, 2013265921) == 961);
    lemma_pow_mod_step(31, 5, 2013265921, 961);
    assert(pow_mod_spec(31, 5, 2013265921) == 28629151);
    lemma_pow_mod_step(31, 10, 2013265921, 28629151);
    assert(pow_mod_spec(31, 10, 2013265921) == 1558084728);
    lemma_pow_mod_step(31, 20, 2013265921, 1558084728);
    assert(pow_mod_spec(31, 20, 2013265921) == 1422208504);
    lemma_pow_mod_step(31, 40, 2013265921, 1422208504);
    assert(pow_mod_spec(31, 40, 2013265921) == 1678705229);
    lemma_pow_mod_step(31, 80, 2013265921, 1678705229);
    assert(pow_mod_spec(31, 80, 2013265921) == 1771892767);
    lemma_pow_mod_step(31, 160, 2013265921, 1771892767);
    assert(pow_mod_spec(31, 160, 2013265921) == 940487245);
    lemma_pow_mod_step(31, 320, 2013265921, 940487245);
    assert(pow_mod_spec(31, 320, 2013265921) == 1516982208);
    lemma_pow_mod_step(31, 640, 2013265921, 1516982208);
    assert(pow_mod_spec(31, 640, 2013265921) == 792115306);
    lemma_pow_mod_step(31, 1280, 2013265921, 792115306);
    assert(pow_mod_spec(31, 1280, 2013265921) == 452791590);
    lemma_pow_mod_step(31, 2560, 2013265921, 452791590);
    assert(pow_mod_spec(31, 2560, 2013265921) == 1605829134);
    lemma_pow_mod_step(31, 5120, 2013265921, 1605829134);
    assert(pow_mod_spec(31, 5120, 2013265921) == 2008025366);
    lemma_pow_mod_step(31, 10240, 2013265921, 2008025366);
    assert(pow_mod_spec(31, 10240, 2013265921) == 456279664);
    lemma_pow_mod_step(31, 20480, 2013265921, 456279664);
    assert(pow_mod_spec(31, 20480, 2013265921) == 1492617483);
    lemma_pow_mod_step(31, 40960, 2013265921, 1492617483);
    assert(pow_mod_spec(31, 40960, 2013265921) == 1252078097);
    lemma_pow_mod_step(31, 81920, 2013265921, 1252078097);
    assert(pow_mod_spec(31, 81920, 2013265921) == 12770214);
    lemma_pow_mod_step(31, 163840, 2013265921, 12770214);
    assert(pow_mod_spec(31, 163840, 2013265921) == 1812738875);
    lemma_pow_mod_step(31, 327680, 2013265921, 1812738875);
    assert(pow_mod_spec(31, 327680, 2013265921) == 1048536409);
    lemma_pow_mod_step(31, 655360, 2013265921, 1048536409);
    assert(pow_mod_spec(31, 655360, 2013265921) == 434152628);
    lemma_pow_mod_step(31, 1310720, 2013265921, 434152628);
    assert(pow_mod_spec(31, 1310720, 2013265921) == 1734511292);
    lemma_pow_mod_step(31, 2621440, 2013265921, 1734511292);
    assert(pow_mod_spec(31, 2621440, 2013265921) == 839726776);
    lemma_pow_mod_step(31, 5242880, 2013265921, 839726776);
    assert(pow_mod_spec(31, 5242880, 2013265921) == 629262984);
    lemma_pow_mod_step(31, 10485760, 2013265921, 629262984);
    assert(pow_mod_spec(31, 10485760, 2013265921) == 1502726565);
    lemma_pow_mod_step(31, 20971520, 2013265921, 1502726565);
    assert(pow_mod_spec(31, 20971520, 2013265921) == 48459945);
    lemma_pow_mod_step(31, 41943040, 2013265921, 48459945);
    assert(pow_mod_spec(31, 41943040, 2013265921) == 288916259);
    lemma_pow_mod_step(31, 83886080, 2013265921, 288916259);
    assert(pow_mod_spec(31, 83886080, 2013265921) == 503591070);
    lemma_pow_mod_step(31, 167772160, 2013265921, 503591070);
    assert(pow_mod_spec(31, 167772160, 2013265921) == 782862608);
    lemma_pow_mod_step(31, 335544320, 2013265921, 782862608);
    assert(pow_mod_spec(31, 335544320, 2013265921) == 1314723124);
    lemma_pow_mod_step(31, 671088640, 2013265921, 1314723124);
    assert(pow_mod_spec(31, 671088640, 2013265921) == 1314723123);
}

#[verifier::spinoff_prover]
#[verifier::rlimit(40)]
proof fn lemma_eval_31_fifth()
    ensures
        pow_mod_spec(31, 402653184, 2013265921) == 645581151,
{
    lemma_pow_mod_zero(31, 2013265921);
    assert(pow_mod_spec(31, 0, 2013265921) == 1);
    lemma_pow_mod_step(31, 1, 2013265921, 1);
    assert(pow_mod_spec(31, 1, 2013265921) == 31);
    lemma_pow_mod_step(31, 3, 2013265921, 31);
    assert(pow_mod_spec(31, 3, 2013265921) == 29791);
    lemma_pow_mod_step(31, 6, 2013265921, 29791);
    assert(pow_mod_spec(31, 6, 2013265921) == 887503681);
    lemma_pow_mod_step(31, 12, 2013265921, 887503681);
    assert(pow_mod_spec(31, 12, 2013265921) == 1462844305);
    lemma_pow_mod_step(31, 24, 2013265921, 1462844305);
    assert(pow_mod_spec(31, 24, 2013265921) == 839089552);
    lemma_pow_mod_step(31, 48, 2013265921, 839089552);
    assert(pow_mod_spec(31, 48, 2013265921) == 1646113519);
    lemma_pow_mod_step(31, 96, 2013265921, 1646113519);
    assert(pow_mod_spec(31, 96, 2013265921) == 989735200);
    lemma_pow_mod_step(31, 192, 2013265921, 989735200);
    assert(pow_mod_spec(31, 192, 2013265921) == 354087134);
    lemma_pow_mod_step(31, 384, 2013265921, 354087134);
    assert(pow_mod_spec(31, 384, 2013265921) == 939704260);
    lemma_pow_mod_step(31, 768, 2013265921, 939704260);
    assert(pow_mod_spec(31, 768, 2013265921) == 210852613);
    lemma_pow_mod_step(31, 1536, 2013265921, 210852613);
    assert(pow_mod_spec(31, 1536, 2013265921) == 1924503713);
    lemma_pow_mod_step(31, 3072, 2013265921, 1924503713);
    assert(pow_mod_spec(31, 3072, 2013265921) == 620932417);
    lemma_pow_mod_step(31, 6144, 2013265921, 620932417);
    assert(pow_mod_spec(31, 6144, 2013265921) == 953858903);
    lemma_pow_mod_step(31, 12288, 2013265921, 953858903);
    assert(pow_mod_spec(31, 12288, 2013265921) == 911499372);
    lemma_pow_mod_step(31, 24576, 2013265921, 911499372);
    assert(pow_mod_spec(31, 24576, 2013265921) == 1788359951);
    lemma_pow_mod_step(31, 49152, 2013265921, 1788359951);
    assert(pow_mod_spec(31, 49152, 2013265921) == 1109355884);
    lemma_pow_mod_step(31, 98304, 2013265921, 1109355884);
    assert(pow_mod_spec(31, 98304, 2013265921) == 712883858);
    lemma_pow_mod_step(31, 196608, 2013265921, 712883858);
    assert(pow_mod_spec(31, 196608, 2013265921) == 1634029288);
    lemma_pow_mod_step(31, 393216, 2013265921, 1634029288);
    assert(pow_mod_spec(31, 393216, 2013265921) == 475368472);
    lemma_pow_mod_step(31, 786432, 2013265921, 475368472);
    assert(pow_mod_spec(31, 786432, 2013265921) == 233410736);
    lemma_pow_mod_step(31, 1572864, 2013265921, 233410736);
    assert(pow_mod_spec(31, 1572864, 2013265921) == 1351192264);
    lemma_pow_mod_step(31, 3145728, 2013265921, 1351192264);
    assert(pow_mod_spec(31, 3145728, 2013265921) == 1537548338);
    lemma_pow_mod_step(31, 6291456, 2013265921, 1537548338);
    assert(pow_mod_spec(31, 6291456, 2013265921) == 981668758);
    lemma_pow_mod_step(31, 12582912, 2013265921, 981668758);
    assert(pow_mod_spec(31, 12582912, 2013265921) == 410767134);
    lemma_pow_mod_step(31, 25165824, 2013265921, 410767134);
    assert(pow_mod_spec(31, 25165824, 2013265921) == 1902556399);
    lemma_pow_mod_step(31, 50331648, 2013265921, 1902556399);
    assert(pow_mod_spec(31, 50331648, 2013265921) == 422226006);
    lemma_pow_mod_step(31, 100663296, 2013265921, 422226006);
    assert(pow_mod_spec(31, 100663296, 2013265921) == 161600065);
    lemma_pow_mod_step(31, 201326592, 2013265921, 161600065);
    assert(pow_mod_spec(31, 201326592, 2013265921) == 1403701133);
    lemma_pow_mod_step(31, 402653184, 2013265921, 1403701133);
    assert(pow_mod_spec(31, 402653184, 2013265921) == 645581151);
}

#[verifier::spinoff_prover]
#[verifier::rlimit(40)]
pub proof fn lemma_eval_31_fifteen()
    ensures
        pow_mod_spec(31, 15, 2013265921) == 440564289,
{
    lemma_pow_mod_zero(31, 2013265921);
    assert(pow_mod_spec(31, 0, 2013265921) == 1);
    lemma_pow_mod_step(31, 1, 2013265921, 1);
    assert(pow_mod_spec(31, 1, 2013265921) == 31);
    lemma_pow_mod_step(31, 3, 2013265921, 31);
    assert(pow_mod_spec(31, 3, 2013265921) == 29791);
    lemma_pow_mod_step(31, 7, 2013265921, 29791);
    assert(pow_mod_spec(31, 7, 2013265921) == 1340157138);
    lemma_pow_mod_step(31, 15, 2013265921, 1340157138);
    assert(pow_mod_spec(31, 15, 2013265921) == 440564289);
}

/// The residue of a product's power is the product of the residues.
proof fn lemma_residue_product(a: int, b: int, e: nat)
    ensures
        pow(a * b, e) % (BABYBEAR_PRIME as int) == ((pow(a, e) % (BABYBEAR_PRIME as int)) * (pow(
            b,
            e,
        ) % (BABYBEAR_PRIME as int))) % (BABYBEAR_PRIME as int),
{
    lemma_pow_distributes(a, b, e);
    lemma_mul_mod_noop(pow(a, e), pow(b, e), BABYBEAR_PRIME as int);
}

/// `g` fails the generator test because `g^((p-1)/q) = 1` for the prime `q`.
proof fn lemma_fails_with(g: int, q: int)
    requires
        is_prime(q),
        (BABYBEAR_PRIME - 1) % q == 0,
        pow(g, ((BABYBEAR_PRIME - 1) / q) as nat) % (BABYBEAR_PRIME as int) == 1,
    ensures
        !passes_generator_test(g, BABYBEAR_PRIME as int),
{
}

/// 31 is the least generator of the BabyBear field.
pub proof fn lemma_babybear_least_generator()
    ensures
        has_generator(BABYBEAR_PRIME as int),
        is_least_generator(31, BABYBEAR_PRIME as int),
        least_generator(BABYBEAR_PRIME as int) == 31,
{
    let p = BABYBEAR_PRIME as int;
    lemma_small_primes();
    let e2: nat = 1006632960;
    let e3: nat = 671088640;
    let e5: nat = 402653184;
    assert(e2 == ((p - 1) / 2) as nat);
    assert(e3 == ((p - 1) / 3) as nat);
    assert(e5 == ((p - 1) / 5) as nat);
    lemma_eval_2_half();
    lemma_pow_mod_spec(2, e2, p);
    lemma_eval_3_half();
    lemma_pow_mod_spec(3, e2, p);
    lemma_eval_5_half();
    lemma_pow_mod_spec(5, e2, p);
    lemma_eval_7_half();
    lemma_pow_mod_spec(7, e2, p);
    lemma_eval_13_half();
    lemma_pow_mod_spec(13, e2, p);
    lemma_eval_17_half();
    lemma_pow_mod_spec(17, e2, p);
    lemma_eval_19_half();
    lemma_pow_mod_spec(19, e2, p);
    lemma_eval_29_half();
    lemma_pow_mod_spec(29, e2, p);
    lemma_residue_product(2, 2, e2);
    lemma_residue_product(2, 3, e2);
    lemma_residue_product(2, 4, e2);
    lemma_residue_product(3, 3, e2);
    lemma_residue_product(2, 5, e2);
    lemma_residue_product(2, 6, e2);
    lemma_residue_product(2, 7, e2);
    lemma_residue_product(3, 5, e2);
    lemma_residue_product(2, 8, e2);
    lemma_residue_product(2, 9, e2);
    lemma_residue_product(2, 10, e2);
    lemma_residue_product(3, 7, e2);
    lemma_residue_product(2, 12, e2);
    lemma_residue_product(5, 5, e2);
    lemma_residue_product(2, 13, e2);
    lemma_residue_product(3, 9, e2);
    lemma_residue_product(2, 14, e2);
    lemma_residue_product(2, 15, e2);
    lemma_eval_11_third();
    lemma_pow_mod_spec(11, e3, p);
    lemma_eval_23_third();
    lemma_pow_mod_spec(23, e3, p);
    lemma_eval_22_fifth();
    lemma_pow_mod_spec(22, e5, p);
    assert forall|h: int| 2 <= h < 31 implies !#[trigger] passes_generator_test(h, p) by {
        if h == 2 {
            lemma_fails_with(2, 2);
        } else if h == 3 {
            lemma_fails_with(3, 2);
        } else if h == 4 {
            lemma_fails_with(4, 2);
        } else if h == 5 {
            lemma_fails_with(5, 2);
        } else if h == 6 {
            lemma_fails_with(6, 2);
        } else if h == 7 {
            lemma_fails_with(7, 2);
        } else if h == 8 {
            lemma_fails_with(8, 2);
        } else if h == 9 {
            lemma_fails_with(9, 2);
        } else if h == 10 {
            lemma_fails_with(10, 2);
        } else if h == 11 {
            lemma_fails_with(11, 3);
        } else if h == 12 {
            lemma_fails_with(12, 2);
        } else if h == 13 {
            lemma_fails_with(13, 2);
        } else if h == 14 {
            lemma_fails_with(14, 2);
        } else if h == 15 {
            lemma_fails_with(15, 2);
        } else if h == 16 {
            lemma_fails_with(16, 2);
        } else if h == 17 {
            lemma_fails_with(17, 2);
        } else if h == 18 {
            lemma_fails_with(18, 2);
        } else if h == 19 {
            lemma_fails_with(19, 2);
        } else if h == 20 {
            lemma_fails_with(20, 2);
        } else if h == 21 {
            lemma_fails_with(21, 2);
        } else if h == 22 {
            lemma_fails_with(22, 5);
        } else if h == 23 {
            lemma_fails_with(23, 3);
        } else if h == 24 {
            lemma_fails_with(24, 2);
        } else if h == 25 {
            lemma_fails_with(25, 2);
        } else if h == 26 {
            lemma_fails_with(26, 2);
        } else if h == 27 {
            lemma_fails_with(27, 2);
        } else if h == 28 {
            lemma_fails_with(28, 2);
        } else if h == 29 {
            lemma_fails_with(29, 2);
        } else if h == 30 {
            lemma_fails_with(30, 2);
        } else {
        }
    }
    lemma_eval_31_half();
    lemma_eval_31_third();
    lemma_eval_31_fifth();
    lemma_pow_mod_spec(31, e2, p);
    lemma_pow_mod_spec(31, e3, p);
    lemma_pow_mod_spec(31, e5, p);
    assert forall|q: int| #[trigger] is_prime(q) && (p - 1) % q == 0 implies pow(
        31,
        ((p - 1) / q) as nat,
    ) % p != 1 by {
        lemma_babybear_prime_divisors(q);
    }
    assert(passes_generator_test(31, p));
    assert(is_least_generator(31, p));
    lemma_least_generator_unique(31, p);
}

/// The table of powers of the `n`-th root of unity that `roots_of_unity`
/// builds for the BabyBear prime.
pub open spec fn babybear_roots(n: nat) -> Seq<int> {
    Seq::new(
        n,
        |i: int|
            pow(root_of_unity_spec(n as int, BABYBEAR_PRIME as int), i as nat) % (
            BABYBEAR_PRIME as int),
    )
}

/// For a power of two `n` dividing `p - 1`, the BabyBear root table is a
/// table of an element of order `n`.
pub proof fn lemma_babybear_root_table(n: nat)
    requires
        is_pow2(n),
        (BABYBEAR_PRIME - 1) % (n as int) == 0,
    ensures
        is_root_table(
            babybear_roots(n),
            root_of_unity_spec(n as int, BABYBEAR_PRIME as int),
            BABYBEAR_PRIME as int,
        ),
{
    let p = BABYBEAR_PRIME as int;
    let w = root_of_unity_spec(n as int, p);
    if n >= 2 {
        lemma_babybear_least_generator();
        lemma_pow2_even(n);
        let q = (p - 1) / (n as int);
        lemma_fundamental_div_mod(p - 1, n as int);
        assert(q * (n / 2) == (p - 1) / 2) by {
            assert(q * n == p - 1) by {
                lemma_mul_is_commutative(q, n as int);
            }
            assert(q * (n / 2) * 2 == q * n) by {
                lemma_mul_is_associative(q, (n / 2) as int, 2);
            }
        }
        lemma_mul_nonnegative(q, (n / 2) as int);
        lemma_pow_mod_noop(pow(31, q as nat), (n / 2) as nat, p);
        lemma_pow_multiplies(31, q as nat, (n / 2) as nat);
        lemma_eval_31_half();
        lemma_pow_mod_spec(31, 1006632960, p);
    }
}

/// `n^(p-1) = 1` mod the BabyBear prime for every power of two `n`.
pub proof fn lemma_babybear_pow2_fermat(n: nat)
    requires
        is_pow2(n),
    ensures
        pow(n as int, (BABYBEAR_PRIME - 1) as nat) % (BABYBEAR_PRIME as int) == 1,
    decreases n,
{
    let p = BABYBEAR_PRIME as int;
    let e = (BABYBEAR_PRIME - 1) as nat;
    if n == 1 {
        lemma1_pow(e);
        lemma_small_mod(1, p as nat);
    } else {
        lemma_pow2_even(n);
        lemma_babybear_pow2_fermat(n / 2);
        lemma_eval_2_half();
        lemma_pow_mod_spec(2, 1006632960, p);
        lemma_pow_multiplies(2, 1006632960, 2);
        lemma_pow_mod_noop(pow(2, 1006632960), 2, p);
        lemma_pow1(1);
        assert(pow(1, 2) == 1) by {
            lemma1_pow(2);
        }
        lemma_small_mod(1, p as nat);
        lemma_pow_distributes(2, (n / 2) as int, e);
        lemma_mul_mod_noop(pow(2, e), pow((n / 2) as int, e), p);
    }
}

/// 31 has order `p - 1` modulo the BabyBear prime: `31^(p-1) = 1` and no
/// `31^((p-1)/q)` is 1 for a prime `q` dividing `p - 1`.
pub proof fn lemma_babybear_full_order()
    ensures
        pow(31, (BABYBEAR_PRIME - 1) as nat) % (BABYBEAR_PRIME as int) == 1,
        no_proper_order(31, BABYBEAR_PRIME as int),
{
    let p = BABYBEAR_PRIME as int;
    let h: nat = 1006632960;
    lemma_babybear_least_generator();
    lemma_eval_31_half();
    lemma_pow_mod_spec(31, h, p);
    lemma_pow_multiplies(31, h, 2);
    lemma_pow_minus_one(pow(31, h), 2, p);
}

/// The BabyBear modulus 2013265921 is prime.
pub proof fn lemma_babybear_prime()
    ensures
        is_prime(BABYBEAR_PRIME as int),
{
    lemma_babybear_full_order();
    lemma_prime_from_full_order(31, BABYBEAR_PRIME as int);
}

/// Fermat's little theorem for BabyBear: `x^(p-1) = 1` mod p for every `x`
/// that is not a multiple of p.
pub proof fn lemma_babybear_fermat(x: int)
    requires
        x % (BABYBEAR_PRIME as int) != 0,
    ensures
        pow(x, (BABYBEAR_PRIME - 1) as nat) % (BABYBEAR_PRIME as int) == 1,
{
    lemma_babybear_prime();
    lemma_fermat_prime(BABYBEAR_PRIME as int, x);
}

} // verus!
