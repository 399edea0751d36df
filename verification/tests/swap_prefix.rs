use swap_prefix::adaptive_fee::{
    AdaptiveFeeConstantsFacade, AdaptiveFeeInfo, AdaptiveFeeVariablesFacade, OracleFacade,
    MAX_REFERENCE_AGE,
};
use swap_prefix::counters::Recorder;
use swap_prefix::pool::WhirlpoolFacade;
use swap_prefix::swap::compute_swap;
use swap_prefix::swap_prefix::{SwapPrefixTable, SwapPrefixTail};
use swap_prefix::tick_array::{TickArrayFacade, TickArraySequence, TickFacade, TICK_ARRAY_SIZE};
use swap_prefix::tick_math::{sqrt_price_to_tick_index, tick_index_to_sqrt_price};

type Arrays = Vec<Option<TickArrayFacade>>;

fn sqrt_price_of_tick(tick: i32) -> u128 {
    tick_index_to_sqrt_price(tick, &mut Recorder::new())
}

fn tick_of_sqrt_price(sqrt_price: u128) -> i32 {
    sqrt_price_to_tick_index(sqrt_price, &mut Recorder::new())
}

fn empty_array(start_tick_index: i32) -> TickArrayFacade {
    TickArrayFacade { start_tick_index, ticks: [TickFacade::default(); TICK_ARRAY_SIZE] }
}

fn now() -> u64 {
    std::time::SystemTime::now()
        .duration_since(std::time::UNIX_EPOCH)
        .unwrap()
        .as_secs()
}

fn whirlpool(sqrt_price: u128, liquidity: u128, tick_spacing: u16, adaptive: bool) -> WhirlpoolFacade {
    WhirlpoolFacade {
        tick_current_index: tick_of_sqrt_price(sqrt_price),
        fee_rate: if adaptive { 1000 } else { 3000 },
        liquidity,
        sqrt_price,
        fee_tier_index_seed: if adaptive { [128 + 64, 0] } else { [tick_spacing as u8, 0] },
        tick_spacing,
        ..WhirlpoolFacade::default()
    }
}

fn tick(liquidity_net: i128) -> TickFacade {
    TickFacade {
        initialized: liquidity_net != 0,
        liquidity_net,
        ..TickFacade::default()
    }
}

/// Five arrays around 0 with an initialized tick at every slot, with the ticks' liquidity deltas made
/// irregular so consecutive crossings differ.
fn dense_arrays(tick_spacing: u16) -> Arrays {
    let span = TICK_ARRAY_SIZE as i32 * tick_spacing as i32;
    let mut arrays: Arrays = Vec::new();
    for start in [0, span, 2 * span, -span, -2 * span] {
        let mut ticks = [TickFacade::default(); TICK_ARRAY_SIZE];
        for (j, t) in ticks.iter_mut().enumerate() {
            let net = if start < 0 { 1000 + j as i128 * 7 } else { -(1000 + j as i128 * 7) };
            *t = tick(net);
        }
        arrays.push(Some(TickArrayFacade { start_tick_index: start, ticks }));
    }
    arrays
}

/// Sparse: one initialized tick per array, at differing offsets, so the walk alternates long
/// and short steps and lands on an array sentinel at the end.
fn sparse_arrays_with(tick_spacing: u16, net: i128) -> Arrays {
    let span = TICK_ARRAY_SIZE as i32 * tick_spacing as i32;
    let mut arrays: Arrays = Vec::new();
    for (i, start) in [0, span, 2 * span, -span, -2 * span].into_iter().enumerate() {
        let mut ticks = [TickFacade::default(); TICK_ARRAY_SIZE];
        let slot = (i * 17 + 3) % TICK_ARRAY_SIZE;
        ticks[slot] = tick(if start < 0 { net } else { -net });
        arrays.push(Some(TickArrayFacade { start_tick_index: start, ticks }));
    }
    arrays
}

fn sparse_arrays(tick_spacing: u16) -> Arrays {
    sparse_arrays_with(tick_spacing, 100_000)
}

fn empty_arrays(tick_spacing: u16) -> Arrays {
    let span = TICK_ARRAY_SIZE as i32 * tick_spacing as i32;
    let mut arrays: Arrays = Vec::new();
    for start in [0, span, 2 * span, -span, -2 * span] {
        arrays.push(Some(empty_array(start)));
    }
    arrays
}

fn oracle(now: u64, last_ref: u64, last_major: u64, vol_ref: u32, idx_ref: i32, vol_acc: u32) -> OracleFacade {
    OracleFacade {
        trade_enable_timestamp: now,
        adaptive_fee_constants: AdaptiveFeeConstantsFacade {
            filter_period: 30,
            decay_period: 600,
            adaptive_fee_control_factor: 5_000,
            reduction_factor: 500,
            max_volatility_accumulator: 88 * 3 * 10_000,
            tick_group_size: 64,
            major_swap_threshold_ticks: 64,
        },
        adaptive_fee_variables: AdaptiveFeeVariablesFacade {
            last_reference_update_timestamp: last_ref,
            last_major_swap_timestamp: last_major,
            volatility_reference: vol_ref,
            tick_group_index_reference: idx_ref,
            volatility_accumulator: vol_acc,
        },
    }
}

/// The counted walk's answer for an exact-in swap, in the output token, `0` on `Err`.
fn walk(amount: u64, wp: WhirlpoolFacade, seq: &TickArraySequence, a_to_b: bool, ts: u64, afi: Option<AdaptiveFeeInfo>) -> u64 {
    match compute_swap(amount, 0, wp, seq, a_to_b, ts, afi, &mut Recorder::new()) {
        Ok(r) => if a_to_b { r.token_b } else { r.token_a },
        Err(_) => 0,
    }
}

/// Every amount in `amounts`, in three build orders, on a fresh table each: the table's
/// answer must equal the walk's to the unit. Returns how many rows the fullest table held.
fn check(wp: WhirlpoolFacade, arrays: Arrays, a_to_b: bool, ts: u64, afi: Option<AdaptiveFeeInfo>, ladder: &[u64]) -> (usize, usize) {
    let seq = TickArraySequence::new(arrays, wp.tick_spacing).unwrap();
    // The boundaries, off a throwaway table built to the top of the ladder.
    let mut probe = SwapPrefixTable::start(0, wp, a_to_b, ts, afi);
    let _ = probe.quote(*ladder.last().unwrap(), &seq, a_to_b);
    let mut amounts: Vec<u64> = ladder.to_vec();
    for b in probe.row_inputs() {
        for a in [b.saturating_sub(1), b, b + 1] {
            if a > 0 && a <= u64::MAX as u128 {
                amounts.push(a as u64);
            }
        }
    }
    amounts.sort_unstable();
    amounts.dedup();
    let n = amounts.len();
    let mut interleaved = Vec::with_capacity(n);
    for j in 0..n.div_ceil(2) {
        interleaved.push(amounts[j]);
        if n - 1 - j > j {
            interleaved.push(amounts[n - 1 - j]);
        }
    }
    let mut nonzero = 0;
    for order in [amounts.clone(), amounts.iter().rev().copied().collect(), interleaved] {
        let mut table = SwapPrefixTable::start(0, wp, a_to_b, ts, afi);
        for &a in &order {
            let expect = walk(a, wp, &seq, a_to_b, ts, afi);
            let got = table.quote(a, &seq, a_to_b);
            assert_eq!(got, expect, "a_to_b={a_to_b} amount={a}: table {got}, walk {expect}");
            nonzero += (expect > 0) as usize;
        }
    }
    (probe.rows().len(), nonzero)
}

fn ladder(max: u64) -> Vec<u64> {
    let mut v = vec![1u64, 2, 3, 10, 100];
    let mut a = 1_000u64;
    while a < max {
        v.push(a);
        a = a.saturating_mul(3) / 2 + 1;
    }
    v.push(max);
    v
}

#[test]
fn static_dense_crossings_match_the_walk_in_both_directions() {
    for a_to_b in [true, false] {
        let (rows, nonzero) = check(whirlpool(1 << 64, 100_000_000, 2, false), dense_arrays(2), a_to_b, now(), None, &ladder(1 << 40));
        assert!(rows > 20, "the table walked {rows} rows");
        assert!(nonzero > 0);
    }
}

#[test]
fn static_sparse_reaches_the_sequence_end_and_stops() {
    for a_to_b in [true, false] {
        let wp = whirlpool(1 << 64, 265_000, 2, false);
        let (rows, _) = check(wp, sparse_arrays(2), a_to_b, now(), None, &ladder(1 << 30));
        assert!(rows >= 1);
        let seq = TickArraySequence::new(sparse_arrays(2), 2).unwrap();
        let mut table = SwapPrefixTable::start(0, wp, a_to_b, now(), None);
        let _ = table.quote(u64::MAX, &seq, a_to_b);
        assert!(matches!(table.tail(), SwapPrefixTail::Stop | SwapPrefixTail::Open(_)), "{:?}", table.tail());
    }
}

#[test]
fn a_failing_crossing_is_an_open_unit() {
    // Liquidity 265_000 against a tick whose net removes 5_000_000 on the way down: the
    // crossing overflows, so an amount that completes the first sub-step errors while a
    // smaller one partial-fills it.
    let wp = whirlpool(1 << 64, 265_000, 2, false);
    check(wp, sparse_arrays_with(2, 5_000_000), true, now(), None, &ladder(1 << 30));
    let seq = TickArraySequence::new(sparse_arrays_with(2, 5_000_000), 2).unwrap();
    let mut table = SwapPrefixTable::start(0, wp, true, now(), None);
    assert_eq!(table.quote(u64::MAX, &seq, true), 0);
    assert!(table.rows().is_empty());
    assert!(matches!(table.tail(), SwapPrefixTail::Open(_)), "{:?}", table.tail());
}

#[test]
fn empty_sequence_open_step_is_replayed() {
    // No initialized tick and a tiny liquidity: one sub-step to the array sentinel that no
    // `u64` completes at the bound, so every amount is a partial of it.
    for a_to_b in [true, false] {
        let wp = whirlpool(1 << 64, 1_000, 64, false);
        check(wp, empty_arrays(64), a_to_b, now(), None, &ladder(1 << 50));
    }
}

#[test]
fn adaptive_substeps_match_the_walk_across_reference_branches() {
    let now = now();
    let afi = |o: OracleFacade| Some(AdaptiveFeeInfo::from(o));
    // High-frequency (keep), reduction, reset, and a hot accumulator with references set.
    let oracles = [
        oracle(now, now, now, 0, 0, 0),
        oracle(now, now - 100, now - 100, 0, 0, 100_000),
        oracle(now, now - 1000, now - 1000, 0, 0, 100_000),
        oracle(now, now - 5, now - 5, 50_000, 3, 200_000),
    ];
    for o in oracles {
        for a_to_b in [true, false] {
            let (rows, nonzero) = check(
                whirlpool(sqrt_price_of_tick(0), 1_000_000, 64, true),
                empty_arrays(64),
                a_to_b,
                now,
                afi(o),
                &ladder(1 << 34),
            );
            assert!(rows > 3, "sub-stepped {rows} rows");
            assert!(nonzero > 0);
            check(
                whirlpool(sqrt_price_of_tick(0), 100_000_000, 64, true),
                dense_arrays(64),
                a_to_b,
                now,
                afi(o),
                &ladder(1 << 44),
            );
        }
    }
}

#[test]
fn a_stale_timestamp_is_a_stop() {
    let now = now();
    let o = oracle(now, now + 10, now, 0, 0, 0);
    let wp = whirlpool(sqrt_price_of_tick(0), 1_000_000, 64, true);
    let seq = TickArraySequence::new(empty_arrays(64), 64).unwrap();
    let mut table = SwapPrefixTable::start(0, wp, true, now, Some(o.into()));
    assert!(matches!(table.tail(), SwapPrefixTail::Stop));
    assert_eq!(table.quote(1_000, &seq, true), 0);
    assert!(compute_swap(1_000, 0, wp, &seq, true, now, Some(o.into()), &mut Recorder::new()).is_err());
}

#[test]
fn reference_branch_names_update_references_outcome() {
    let c = oracle(0, 0, 0, 0, 0, 0).adaptive_fee_constants;
    let base = AdaptiveFeeVariablesFacade {
        last_reference_update_timestamp: 10_000,
        last_major_swap_timestamp: 10_020,
        volatility_reference: 7,
        tick_group_index_reference: 3,
        volatility_accumulator: 40_000,
    };
    for ts in (9_990..=14_000).step_by(1) {
        let branch = base.reference_branch(ts, &c);
        let mut v = base;
        let res = v.update_reference(9, ts, &c);
        let expect = match res {
            Err(_) => 0,
            Ok(()) if v.last_reference_update_timestamp == 10_000 => 2,
            Ok(()) if v.volatility_reference == 0 && ts - 10_000 > MAX_REFERENCE_AGE => 1,
            Ok(()) if v.volatility_reference == 0 => 4,
            Ok(()) => 3,
        };
        assert_eq!(branch, expect, "ts={ts}");
    }
}
