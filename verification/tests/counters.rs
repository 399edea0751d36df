use swap_prefix::counters::{bump, enabled, set_enabled, snapshot, Recorder, SwapCounters};
use swap_prefix::div_path::udiv_path;
use swap_prefix::long_div::chain_div_arms;
use swap_prefix::record::{record_step_fees, record_u256_div, record_u256_mul, record_udiv};
use swap_prefix::tick_math::{
    sqrt_price_to_tick_index, tick_index_to_sqrt_price, MAX_TICK_INDEX,
    MIN_TICK_INDEX,
};
use swap_prefix::u256::{limbs, U256};

fn measure(recorder: &mut Recorder, f: impl FnOnce(&mut Recorder)) -> SwapCounters {
    let prev = set_enabled(recorder, true);
    let before = snapshot(recorder);
    f(recorder);
    let out = snapshot(recorder).since(&before);
    set_enabled(recorder, prev);
    out
}

/// The ladders branch on bits 2,4,8,... of `|tick|`, with bit 1 selecting the seed constant and
/// costing no multiply. So the op count must be `popcount(|tick| >> 1)`.
#[test]
fn ladder_ops_equal_the_set_bits_above_the_seed_bit() {
    let mut recorder = Recorder::new();
    for tick in [
        0, 1, 2, 3, 7, 64, 100, 255, 1000, 4096, 65535, 131071, MAX_TICK_INDEX,
    ] {
        let c = measure(&mut recorder, |r| {
            tick_index_to_sqrt_price(tick, r);
        });
        assert_eq!(c.ladder_pos_calls, 1, "tick {tick}");
        assert_eq!(c.ladder_neg_calls, 0, "tick {tick}");
        assert_eq!(
            c.ladder_pos_ops,
            (tick.unsigned_abs() >> 1).count_ones(),
            "positive ladder ops for tick {tick}"
        );
    }

    for tick in [-1, -2, -3, -7, -64, -100, -255, -1000, -4096, MIN_TICK_INDEX] {
        let c = measure(&mut recorder, |r| {
            tick_index_to_sqrt_price(tick, r);
        });
        assert_eq!(c.ladder_neg_calls, 1, "tick {tick}");
        assert_eq!(c.ladder_pos_calls, 0, "tick {tick}");
        assert_eq!(
            c.ladder_neg_ops,
            (tick.unsigned_abs() >> 1).count_ones(),
            "negative ladder ops for tick {tick}"
        );
    }
}

/// Tick 0 takes the positive ladder and does no multiplying at all — the boundary a sign-keyed cost
/// model has to get right.
#[test]
fn tick_zero_is_a_positive_ladder_call_with_no_ops() {
    let mut recorder = Recorder::new();
    let c = measure(&mut recorder, |r| {
        tick_index_to_sqrt_price(0, r);
    });
    assert_eq!((c.ladder_pos_calls, c.ladder_pos_ops), (1, 0));
    assert_eq!((c.ladder_neg_calls, c.ladder_neg_ops), (0, 0));
}

/// The reverse ladder's refine branch runs a nested `tick_index_to_sqrt_price`, and that nested call
/// must show up in the ladder counters — it is work that ran.
#[test]
fn a_refine_also_counts_its_nested_ladder_call() {
    let mut recorder = Recorder::new();
    let mut refines = 0u32;
    for tick in (MIN_TICK_INDEX..MAX_TICK_INDEX).step_by(7919) {
        let sqrt_price = tick_index_to_sqrt_price(tick, &mut Recorder::new());
        let c = measure(&mut recorder, |r| {
            sqrt_price_to_tick_index(sqrt_price, r);
        });
        assert_eq!(c.sqrt_to_tick_calls, 1, "tick {tick}");
        assert!(c.sqrt_to_tick_log2_iters > 0, "tick {tick}");
        if c.sqrt_to_tick_refines == 1 {
            refines += 1;
            assert_eq!(
                c.ladder_pos_calls + c.ladder_neg_calls,
                1,
                "a refine must run exactly one nested ladder call, tick {tick}"
            );
        } else {
            assert_eq!(c.sqrt_to_tick_refines, 0);
            assert_eq!(c.ladder_pos_calls + c.ladder_neg_calls, 0, "tick {tick}");
        }
    }
    assert!(refines > 0, "no refine branch was exercised; the sweep is not covering it");
}

/// Counters must never leak between measurements, or every reading after the first is wrong by
/// everything that came before it.
#[test]
fn a_measurement_reports_only_its_own_work() {
    let mut recorder = Recorder::new();
    let _ = measure(&mut recorder, |r| {
        tick_index_to_sqrt_price(65535, r);
    });
    let c = measure(&mut recorder, |_| {});
    assert_eq!(c, SwapCounters::zero());
}

/// Every branch of the trifecta division, on operands built to select it.
#[test]
fn udiv_path_selects_each_trifecta_branch() {
    let norm = 1u128 << 63 | 12345; // a normalised 64-bit divisor, as Knuth D hands it over
    assert_eq!(udiv_path(norm - 1, norm), 0, "quotient 0");
    assert_eq!(udiv_path(norm + 1, norm), 1, "quotient 1");
    assert_eq!(udiv_path(1u128 << 40, 1u128 << 20), 2, "half: duo < 2^64, div_lz > duo_lz");
    assert_eq!(udiv_path(1u128 << 100, 1u128 << 20), 3, "short: div < 2^32");
    // two possibility: duo of 65..95 bits against a 64-bit divisor
    assert_eq!(udiv_path(1u128 << 80, norm) & !1, 4);
    // the same with a full 128-bit duo against a divisor within 32 bits of it
    assert_eq!(udiv_path(u128::MAX - 7, 1u128 << 100) & !1, 6);
    // long division: duo of 96+ bits against the 64-bit divisor; one step then an exit
    let p = udiv_path(1u128 << 100, norm);
    assert!((8..18).contains(&p), "one long step, got {p}");
    let p = udiv_path(u128::MAX, norm);
    assert!((18..28).contains(&p), "two long steps, got {p}");
}

/// The chain's long division, kept for its branch counts, must still divide correctly — otherwise
/// the operands it hands the classifier at each step are not the chain's.
#[test]
fn chain_div_arms_reproduces_the_quotient() {
    let mut seed = 0x9E37_79B9_7F4A_7C15u64;
    let mut next = || {
        seed ^= seed << 13;
        seed ^= seed >> 7;
        seed ^= seed << 17;
        seed
    };
    let mut checked = 0;
    for _ in 0..4000 {
        let mut n = [0u64; 4];
        let mut d = [0u64; 4];
        let nw = 3 + (next() % 2) as usize;
        let dw = 1 + (next() % nw as u64) as usize;
        for i in 0..nw {
            n[i] = next() >> (next() % 64);
        }
        for i in 0..dw {
            d[i] = next() >> (next() % 64);
        }
        n[nw - 1] |= 1;
        d[dw - 1] |= 1;
        let to_u256 = |w: [u64; 4]| {
            ethnum::U256::from_words(
                (w[3] as u128) << 64 | w[2] as u128,
                (w[1] as u128) << 64 | w[0] as u128,
            )
        };
        let (num, den) = (to_u256(n), to_u256(d));
        let expect = num / den;
        let (q, arms) = chain_div_arms(n, d);
        assert_eq!(to_u256(q), expect, "n={n:?} d={d:?}");
        let steps: u32 = arms.paths.iter().sum();
        if steps > 0 {
            checked += 1;
        }
    }
    assert!(checked > 3000, "too few draws that divide: {checked}");
}

/// Off by default, and off means that nothing is counted and that a snapshot reads zero.
#[test]
fn counting_is_off_until_it_is_enabled() {
    let mut recorder = Recorder::new();
    assert!(!enabled(&recorder));
    bump(&mut recorder, |c| c.substeps += 1);
    tick_index_to_sqrt_price(-5, &mut recorder);
    assert_eq!(snapshot(&recorder), SwapCounters::default());
    assert!(!set_enabled(&mut recorder, true));
    assert_eq!(snapshot(&recorder), SwapCounters::zero());
    bump(&mut recorder, |c| c.substeps += 1);
    assert_eq!(snapshot(&recorder).substeps, 1);
    assert!(set_enabled(&mut recorder, false));
    assert_eq!(snapshot(&recorder), SwapCounters::zero());
    set_enabled(&mut recorder, true);
    assert_eq!(snapshot(&recorder).substeps, 1);
}

/// A nested scope that restores what it found does not switch counting off for its caller.
#[test]
fn a_nested_scope_restores_the_setting() {
    let mut recorder = Recorder::new();
    set_enabled(&mut recorder, true);
    let inner = measure(&mut recorder, |r| {
        tick_index_to_sqrt_price(3, r);
    });
    assert_eq!(inner.ladder_pos_ops, 1);
    assert!(enabled(&recorder));
}

/// A counter reset between two snapshots reads as no work.
#[test]
fn since_saturates_at_zero() {
    let mut earlier = SwapCounters::zero();
    earlier.tick_steps = 7;
    earlier.udiv_paths[3] = 4;
    let mut later = SwapCounters::zero();
    later.tick_steps = 2;
    later.udiv_paths[3] = 9;
    later.u256_muls = 5;
    let diff = later.since(&earlier);
    assert_eq!(diff.tick_steps, 0);
    assert_eq!(diff.udiv_paths[3], 5);
    assert_eq!(diff.u256_muls, 5);
    assert_eq!(later.since(&later), SwapCounters::zero());
    assert_eq!(later.since(&SwapCounters::zero()), later);
}

fn wide(words: [u64; 4]) -> U256 {
    U256 {
        high: (words[3] as u128) << 64 | words[2] as u128,
        low: (words[1] as u128) << 64 | words[0] as u128,
    }
}

/// Each class of division, by the limbs of its operands.
#[test]
fn divisions_are_classified_by_their_limbs() {
    let mut recorder = Recorder::new();
    // A zero dividend, and a dividend that is narrower than the divisor.
    let c = measure(&mut recorder, |r| {
        record_u256_div(r, U256::new(0), U256::new(3), true, false);
        record_u256_div(r, U256::new(5), wide([0, 1, 0, 0]), true, false);
    });
    assert_eq!((c.u256_divs, c.u256_div_trivial), (2, 2));
    assert_eq!(c.udiv_paths, [0; 28]);

    // Two limbs at most: one native division, with or without a frame.
    let c = measure(&mut recorder, |r| {
        record_u256_div(r, wide([0, 1, 0, 0]), U256::new(1 << 20), true, false);
        record_u256_div(r, wide([7, 0, 0, 0]), U256::new(3), false, false);
    });
    assert_eq!((c.u256_divs, c.u256_div_u128, c.u256_div_case2_frames), (2, 2, 1));
    assert_eq!(c.udiv_paths[udiv_path(1 << 64, 1 << 20)], 1);
    assert_eq!(c.udiv_paths[udiv_path(7, 3)], 1);
    assert_eq!(c.udiv_paths.iter().sum::<u32>(), 2);

    // A single-limb divisor: one step for each limb of the dividend.
    let c = measure(&mut recorder, |r| {
        record_u256_div(r, wide([1, 2, 3, 4]), U256::new(9), true, true);
    });
    assert_eq!((c.u256_div_short_calls, c.u256_div_short_iters, c.u256_div_mul_words), (1, 4, 4));
    assert_eq!(c.udiv_paths.iter().sum::<u32>(), 4);
    assert_eq!(c.u256_div_normalized, 0);

    // The long division: three limbs over two are two steps of two products each.
    let c = measure(&mut recorder, |r| {
        record_u256_div(r, wide([1, 2, 3, 0]), wide([5, 6, 0, 0]), true, true);
        record_u256_div(r, wide([1, 2, 3, 0]), wide([5, 1 << 63, 0, 0]), true, true);
        record_u256_div(r, wide([1, 2, 3, 0]), wide([5, 6, 0, 0]), true, false);
    });
    assert_eq!((c.u256_div_knuth_calls, c.u256_div_knuth_iters, c.u256_div_mul_words), (3, 6, 12));
    assert_eq!((c.u256_div_normalized, c.u256_div_normalized_remainder), (2, 1));
    assert_eq!(c.udiv_paths.iter().sum::<u32>(), 6);
}

/// The limbs of a 256-bit number, lowest first.
#[test]
fn limbs_are_little_endian() {
    assert_eq!(limbs(wide([1, 2, 3, 4])), [1, 2, 3, 4]);
}

/// A multiply is counted by the limbs of its operands, at least one each.
#[test]
fn multiplies_are_counted_by_their_limbs() {
    let mut recorder = Recorder::new();
    for (a, b, products) in [
        (0u128, 0u128, 1u32),
        (1, u64::MAX as u128, 1),
        (1, 1 << 64, 2),
        (u128::MAX, u64::MAX as u128, 2),
        (1 << 64, u128::MAX, 4),
    ] {
        let c = measure(&mut recorder, |r| record_u256_mul(r, a, b));
        assert_eq!((c.u256_muls, c.u256_mul_word_products), (1, products), "{a} * {b}");
    }
}

/// A division by zero is not counted.
#[test]
fn a_division_is_counted_on_its_path() {
    let mut recorder = Recorder::new();
    let c = measure(&mut recorder, |r| {
        record_udiv(r, 5, 0);
        record_udiv(r, 1 << 100, 1 << 20);
    });
    assert_eq!(c.udiv_paths[3], 1);
    assert_eq!(c.udiv_paths.iter().sum::<u32>(), 1);
}

/// The protocol share is divided where there is a rate, and the rest where there is liquidity.
#[test]
fn step_fees_are_two_divisions() {
    let mut recorder = Recorder::new();
    let c = measure(&mut recorder, |r| record_step_fees(r, 1_000_000, 0, 0));
    assert_eq!(c.udiv_paths.iter().sum::<u32>(), 0);
    let c = measure(&mut recorder, |r| record_step_fees(r, 1_000_000, 300, 1 << 40));
    // 1_000_000 * 300 / 10_000 is 30_000, which leaves 970_000.
    assert_eq!(c.udiv_paths[udiv_path(300_000_000, 10_000)], 1);
    assert_eq!(c.udiv_paths[udiv_path(970_000 << 64, 1 << 40)], 1);
    assert_eq!(c.udiv_paths.iter().sum::<u32>(), 2);
}

/// Long divisions take one step, two steps, and on some operands a third, which is counted with the
/// two.
#[test]
fn a_third_long_step_is_counted_with_two() {
    let duo = 0x80642b2f446a29f86909f48f8e4fac05u128;
    let p = udiv_path(duo, 0x100000001);
    assert!((18..28).contains(&p), "{p}");
    assert_eq!(udiv_path(1, 0), 0);
}

/// The work of two adjacent intervals adds up to that of both.
#[test]
fn since_adds_up_over_adjacent_intervals() {
    let mut recorder = Recorder::new();
    set_enabled(&mut recorder, true);
    tick_index_to_sqrt_price(1, &mut recorder);
    let first = snapshot(&recorder);
    tick_index_to_sqrt_price(7, &mut recorder);
    record_udiv(&mut recorder, 100, 7);
    let second = snapshot(&recorder);
    tick_index_to_sqrt_price(7, &mut recorder);
    record_udiv(&mut recorder, 100, 7);
    record_u256_mul(&mut recorder, 1 << 70, 3);
    let third = snapshot(&recorder);
    let (one, two, both) = (second.since(&first), third.since(&second), third.since(&first));
    assert_eq!(one.ladder_pos_ops + two.ladder_pos_ops, both.ladder_pos_ops);
    assert_eq!((one.ladder_pos_ops, two.ladder_pos_ops), (2, 2));
    assert_eq!(one.u256_muls + two.u256_muls, both.u256_muls);
    assert_eq!(both.u256_mul_word_products, 2);
    for path in 0..both.udiv_paths.len() {
        assert_eq!(one.udiv_paths[path] + two.udiv_paths[path], both.udiv_paths[path]);
    }
}

/// One path for each quotient step, and at most two corrections.
#[test]
fn every_quotient_step_takes_one_path() {
    let top = 0x8000_0000_0000_0000;
    for (n, d, steps) in [
        ([1, 2, 3, 4], [5, 0, 0, 0], 4),
        ([1, 2, 3, 0], [5, 0, 0, 0], 3),
        ([1, 2, 3, 4], [5, 6, 0, 0], 3),
        ([u64::MAX, u64::MAX, u64::MAX, u64::MAX], [u64::MAX, top, 0, 0], 3),
        ([0, 0, 0, top], [u64::MAX, u64::MAX, top, 0], 2),
        ([1, 2, 3, 4], [5, 6, 7, 8], 1),
        ([1, 2, 3, 0], [5, 6, 7, 8], 0),
        ([1, 2, 0, 0], [5, 0, 0, 0], 0),
        ([1, 2, 3, 4], [0, 0, 0, 0], 0),
    ] {
        let (_, arms) = chain_div_arms(n, d);
        assert_eq!(arms.paths.iter().sum::<u32>(), steps, "n={n:?} d={d:?}");
        assert!(arms.corrections <= 2 * steps);
        assert!(d[1..].iter().any(|&word| word != 0) || arms.corrections == 0);
    }
}
