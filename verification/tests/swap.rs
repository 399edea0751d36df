use swap_prefix::adaptive_fee::{
    AdaptiveFeeConstantsFacade, AdaptiveFeeInfo, AdaptiveFeeVariablesFacade, OracleFacade,
};
use swap_prefix::counters::{set_enabled, Recorder, SwapCounters};
use swap_prefix::error::CoreError;
use swap_prefix::fee_rate_manager::FeeRateManager;
use swap_prefix::pool::WhirlpoolFacade;
use swap_prefix::swap::compute_swap;
use swap_prefix::swap_prefix::{replay, SwapPrefixTable, SwapPrefixTail, SwapPrefixUnit};
use swap_prefix::swap_step::{compute_swap_step, get_next_liquidity};
use swap_prefix::tick_array::{TickArrayFacade, TickArraySequence, TickFacade, TICK_ARRAY_SIZE};
use swap_prefix::tick_math::{
    sqrt_price_to_tick_index, tick_index_to_sqrt_price, MAX_SQRT_PRICE, MAX_TICK_INDEX,
    MIN_SQRT_PRICE, MIN_TICK_INDEX,
};
use swap_prefix::token_math::{
    try_apply_swap_fee, try_get_amount_delta_a, try_get_amount_delta_b,
    try_get_next_sqrt_price_from_a, try_get_next_sqrt_price_from_b, try_reverse_apply_swap_fee,
};

const ONE: u128 = 1 << 64;
const TICK_1: u128 = 18447666387855959850;

fn off() -> Recorder {
    Recorder::new()
}

fn on() -> Recorder {
    let mut recorder = Recorder::new();
    set_enabled(&mut recorder, true);
    recorder
}

fn price(tick: i32) -> u128 {
    tick_index_to_sqrt_price(tick, &mut off())
}

fn tick(liquidity_net: i128) -> TickFacade {
    TickFacade { initialized: true, liquidity_net, ..TickFacade::default() }
}

fn array(start_tick_index: i32, set: &[(usize, i128)]) -> Option<TickArrayFacade> {
    let mut ticks = [TickFacade::default(); TICK_ARRAY_SIZE];
    for &(slot, net) in set {
        ticks[slot] = tick(net);
    }
    Some(TickArrayFacade { start_tick_index, ticks })
}

/// Three arrays of spacing 64 around zero, with a tick at -640 and one at 640.
fn three_arrays() -> TickArraySequence {
    let span = 64 * 88;
    TickArraySequence::new(
        vec![array(0, &[(10, -1_000)]), None, array(span, &[]), array(-span, &[(78, 1_000)])],
        64,
    )
    .unwrap()
}

fn pool(sqrt_price: u128, liquidity: u128) -> WhirlpoolFacade {
    WhirlpoolFacade {
        fee_tier_index_seed: [64, 0],
        tick_spacing: 64,
        fee_rate: 3000,
        liquidity,
        sqrt_price,
        tick_current_index: sqrt_price_to_tick_index(sqrt_price, &mut off()),
        ..WhirlpoolFacade::default()
    }
}

fn oracle(vol_ref: u32, idx_ref: i32, vol_acc: u32) -> OracleFacade {
    OracleFacade {
        trade_enable_timestamp: 0,
        adaptive_fee_constants: AdaptiveFeeConstantsFacade {
            filter_period: 30,
            decay_period: 600,
            adaptive_fee_control_factor: 5_000,
            reduction_factor: 500,
            max_volatility_accumulator: 88 * 3 * 10_000,
            tick_group_size: 64,
            major_swap_threshold_ticks: 64,
        },
        adaptive_fee_variables: AdaptiveFeeVariablesFacade {
            last_reference_update_timestamp: 1_000,
            last_major_swap_timestamp: 1_000,
            volatility_reference: vol_ref,
            tick_group_index_reference: idx_ref,
            volatility_accumulator: vol_acc,
        },
    }
}

#[test]
fn tick_prices_are_exact() {
    assert_eq!(price(0), ONE);
    assert_eq!(price(1), TICK_1);
    assert_eq!(price(-1), 18445821805675392311);
    assert_eq!(price(100), 18539204128674405812);
    assert_eq!(price(-100_000), 124324258982887573);
    assert_eq!(price(MAX_TICK_INDEX), MAX_SQRT_PRICE);
    assert_eq!(price(MIN_TICK_INDEX), MIN_SQRT_PRICE);
}

#[test]
fn a_tick_is_found_again_from_its_price() {
    for tick in (MIN_TICK_INDEX..=MAX_TICK_INDEX).step_by(4_001) {
        assert_eq!(sqrt_price_to_tick_index(price(tick), &mut off()), tick);
    }
    assert_eq!(sqrt_price_to_tick_index(price(5) - 1, &mut off()), 4);
    assert_eq!(sqrt_price_to_tick_index(price(-5) - 1, &mut off()), -6);
}

#[test]
fn prices_rise_with_ticks() {
    let mut last = price(MIN_TICK_INDEX);
    for tick in (MIN_TICK_INDEX + 1..=MAX_TICK_INDEX).step_by(997) {
        let next = price(tick);
        assert!(last <= next, "tick {tick}");
        assert!((MIN_SQRT_PRICE..=MAX_SQRT_PRICE).contains(&next));
        last = next;
    }
}

#[test]
fn token_amounts_are_exact() {
    let l = 1_000_000_000_000;
    let r = &mut off();
    assert_eq!(try_get_amount_delta_a(ONE, TICK_1, l, true, r), Ok(49_996_251));
    assert_eq!(try_get_amount_delta_a(TICK_1, ONE, l, false, r), Ok(49_996_250));
    assert_eq!(try_get_amount_delta_b(ONE, TICK_1, l, true, r), Ok(49_998_751));
    assert_eq!(try_get_amount_delta_b(TICK_1, ONE, l, false, r), Ok(49_998_750));
    assert_eq!(try_get_amount_delta_a(ONE, ONE, l, true, r), Ok(0));
}

#[test]
fn token_amounts_that_do_not_fit_are_refused() {
    let r = &mut off();
    assert_eq!(
        try_get_amount_delta_a(MIN_SQRT_PRICE, MAX_SQRT_PRICE, u128::MAX, true, r),
        Err(CoreError::ArithmeticOverflow)
    );
    assert_eq!(
        try_get_amount_delta_a(MIN_SQRT_PRICE, ONE, 1 << 60, true, r),
        Err(CoreError::AmountExceedsMaxU64)
    );
    assert_eq!(
        try_get_amount_delta_b(ONE, MAX_SQRT_PRICE, 1 << 60, true, r),
        Err(CoreError::AmountExceedsMaxU64)
    );
}

#[test]
fn next_prices_are_exact() {
    let l = 1_000_000_000_000;
    let r = &mut off();
    assert_eq!(try_get_next_sqrt_price_from_a(ONE, l, 1_000, r), Ok(18446744055262807561));
    assert_eq!(try_get_next_sqrt_price_from_b(ONE, l, 1_000, r), Ok(18446744092156295689));
    assert_eq!(try_get_next_sqrt_price_from_a(ONE, l, 0, r), Ok(ONE));
    assert_eq!(try_get_next_sqrt_price_from_b(ONE, l, 0, r), Ok(ONE));
}

#[test]
fn next_prices_out_of_range_are_refused() {
    let r = &mut off();
    assert_eq!(
        try_get_next_sqrt_price_from_a(ONE, 1, u64::MAX, r),
        Err(CoreError::SqrtPriceOutOfBounds)
    );
    assert_eq!(
        try_get_next_sqrt_price_from_b(ONE, 1, u64::MAX, r),
        Err(CoreError::SqrtPriceOutOfBounds)
    );
    assert_eq!(
        try_get_next_sqrt_price_from_a(MAX_SQRT_PRICE, u128::MAX, 1, r),
        Err(CoreError::ArithmeticOverflow)
    );
}

#[test]
fn fees_are_exact_and_meet_at_the_threshold() {
    let r = &mut off();
    assert_eq!(try_apply_swap_fee(1_000_000, 3_000, r), 997_000);
    assert_eq!(try_reverse_apply_swap_fee(1_000_000, 3_000, r), Ok(1_003_010));
    assert_eq!(try_reverse_apply_swap_fee(1, 3_000, r), Ok(2));
    assert_eq!(try_reverse_apply_swap_fee(0, 3_000, r), Ok(0));
    assert_eq!(
        try_reverse_apply_swap_fee(u64::MAX, 3_000, r),
        Err(CoreError::AmountExceedsMaxU64)
    );
    for needed in [1u64, 2, 333, 997, 1_000, 123_456_789] {
        let least = try_reverse_apply_swap_fee(needed, 3_000, r).unwrap();
        assert!(try_apply_swap_fee(least, 3_000, r) >= needed);
        assert!(try_apply_swap_fee(least - 1, 3_000, r) < needed);
    }
}

#[test]
fn a_reached_step_does_not_depend_on_the_amount() {
    let l = 1_000_000_000_000;
    let target = price(-10);
    let full = compute_swap_step(u64::MAX, 3_000, l, ONE, target, true, &mut off()).unwrap();
    assert_eq!(full.next_sqrt_price, target);
    let consumed = full.amount_in + full.fee_amount;
    for more in [0, 1, 1_000_000] {
        let step = compute_swap_step(consumed + more, 3_000, l, ONE, target, true, &mut off());
        assert_eq!(step, Ok(full));
    }
    let short = compute_swap_step(consumed - 1, 3_000, l, ONE, target, true, &mut off()).unwrap();
    assert!(short.next_sqrt_price > target);
    assert_eq!(short.amount_in + short.fee_amount, consumed - 1);
}

#[test]
fn a_partial_step_is_exact() {
    let l = 1_000_000_000_000;
    let step = compute_swap_step(1_000_000, 3_000, l, ONE, price(-640), true, &mut off()).unwrap();
    assert_eq!(step.next_sqrt_price, 18446725682324046339);
    assert_eq!((step.amount_in, step.amount_out, step.fee_amount), (997_000, 996_999, 3_000));
    let step = compute_swap_step(1_000_000, 3_000, l, ONE, price(640), false, &mut off()).unwrap();
    assert_eq!(step.next_sqrt_price, 18446762465113393104);
    assert_eq!((step.amount_in, step.amount_out, step.fee_amount), (997_000, 996_999, 3_000));
}

#[test]
fn no_liquidity_gives_nothing_for_nothing() {
    let step = compute_swap_step(5, 3_000, 0, ONE, price(-640), true, &mut off()).unwrap();
    assert_eq!(step.next_sqrt_price, price(-640));
    assert_eq!((step.amount_in, step.amount_out, step.fee_amount), (0, 0, 0));
}

#[test]
fn liquidity_crosses_a_tick_both_ways() {
    assert_eq!(get_next_liquidity(100, Some(tick(30)), true), Ok(70));
    assert_eq!(get_next_liquidity(100, Some(tick(30)), false), Ok(130));
    assert_eq!(get_next_liquidity(100, Some(tick(-30)), true), Ok(130));
    assert_eq!(get_next_liquidity(100, None, true), Ok(100));
    assert_eq!(
        get_next_liquidity(100, Some(tick(101)), true),
        Err(CoreError::LiquidityOverflow)
    );
    assert_eq!(
        get_next_liquidity(u128::MAX, Some(tick(i128::MIN)), true),
        Err(CoreError::LiquidityOverflow)
    );
}

#[test]
fn ticks_are_found_from_both_sides() {
    let seq = three_arrays();
    let span = 64 * 88;
    assert_eq!((seq.start_index(), seq.end_index()), (-span, 2 * span - 1));
    assert_eq!(seq.prev_initialized_tick(5_000), Ok((Some(tick(-1_000)), 640)));
    assert_eq!(seq.prev_initialized_tick(640), Ok((Some(tick(-1_000)), 640)));
    assert_eq!(seq.prev_initialized_tick(639), Ok((Some(tick(1_000)), -640)));
    assert_eq!(seq.prev_initialized_tick(-641), Ok((None, -span)));
    assert_eq!(seq.next_initialized_tick(-640), Ok((Some(tick(-1_000)), 640)));
    assert_eq!(seq.next_initialized_tick(-span - 64), Ok((Some(tick(1_000)), -640)));
    assert_eq!(seq.next_initialized_tick(640), Ok((None, 2 * span - 1)));
    for outside in [-span - 1, 2 * span] {
        assert_eq!(
            seq.prev_initialized_tick(outside),
            Err(CoreError::InvalidTickArraySequence)
        );
    }
    for outside in [-span - 65, 2 * span - 1] {
        assert_eq!(
            seq.next_initialized_tick(outside),
            Err(CoreError::InvalidTickArraySequence)
        );
    }
}

#[test]
fn the_tick_range_ends_the_arrays() {
    let seq = TickArraySequence::new(vec![array(-444_544 + 64, &[])], 64).unwrap();
    assert_eq!(seq.start_index(), MIN_TICK_INDEX);
    let seq = TickArraySequence::new(vec![array(439_296, &[])], 64).unwrap();
    assert_eq!(seq.end_index(), MAX_TICK_INDEX);
}

#[test]
fn arrays_with_gaps_or_without_any_are_refused() {
    assert_eq!(
        TickArraySequence::new(vec![None, None], 64).err(),
        Some(CoreError::TickSequenceEmpty)
    );
    assert_eq!(
        TickArraySequence::new(vec![array(0, &[]), array(64 * 88 * 2, &[])], 64).err(),
        Some(CoreError::TickArrayNotEvenlySpaced)
    );
    assert_eq!(
        TickArraySequence::new(vec![array(0, &[]), array(0, &[])], 64).err(),
        Some(CoreError::TickArrayNotEvenlySpaced)
    );
}

#[test]
fn a_swap_within_one_leg_is_exact() {
    let seq = three_arrays();
    let wp = pool(ONE, 1_000_000_000_000);
    let result = compute_swap(1_000_000, 0, wp, &seq, true, 0, None, &mut off()).unwrap();
    assert_eq!((result.token_a, result.token_b), (1_000_000, 996_999));
    let result = compute_swap(1_000_000, 0, wp, &seq, false, 0, None, &mut off()).unwrap();
    assert_eq!((result.token_a, result.token_b), (996_999, 1_000_000));
}

#[test]
fn every_gate_refuses_its_swap() {
    let seq = three_arrays();
    let wp = pool(ONE, 1_000_000);
    let swap = |amount, limit, wp, info| {
        compute_swap(amount, limit, wp, &seq, true, 0, info, &mut off()).err()
    };
    assert_eq!(swap(1, 1, wp, None), Some(CoreError::SqrtPriceLimitOutOfBounds));
    assert_eq!(swap(1, ONE, wp, None), Some(CoreError::InvalidSqrtPriceLimitDirection));
    assert_eq!(swap(0, 0, wp, None), Some(CoreError::ZeroTradableAmount));
    let info = Some(AdaptiveFeeInfo::from(oracle(0, 0, 0)));
    assert_eq!(swap(1, 0, wp, info), Some(CoreError::InvalidAdaptiveFeeInfo));
    let adaptive = WhirlpoolFacade { fee_tier_index_seed: [0, 4], ..wp };
    assert_eq!(swap(1, 0, adaptive, None), Some(CoreError::InvalidAdaptiveFeeInfo));
    // The clock is behind the reference.
    assert_eq!(swap(1, 0, adaptive, info), Some(CoreError::InvalidTimestamp));
    assert_eq!(swap(u64::MAX, 0, wp, None), Some(CoreError::InvalidTickArraySequence));
}

#[test]
fn refused_swaps_are_quoted_as_nothing() {
    let seq = three_arrays();
    let wp = pool(ONE, 1_000_000);
    for limit in [1, ONE] {
        let mut table = SwapPrefixTable::start(limit, wp, true, 7, None);
        assert!(matches!(table.tail(), SwapPrefixTail::Stop));
        assert_eq!(table.quote(1_000, &seq, true), 0);
        assert_eq!(table.timestamp(), 7);
    }
    let mut table = SwapPrefixTable::start(0, wp, true, 7, None);
    assert_eq!(table.quote(0, &seq, true), 0);
}

/// Input past the limit is left over, and quotes what the limit gives.
#[test]
fn a_limit_caps_the_table() {
    let seq = three_arrays();
    let wp = pool(ONE, 1_000_000_000_000);
    for (limit, a_to_b) in [(price(-1_000), true), (price(1_000), false), (price(-640), true)] {
        let mut table = SwapPrefixTable::start(limit, wp, a_to_b, 0, None);
        let most = table.quote(u64::MAX, &seq, a_to_b);
        assert!(matches!(table.tail(), SwapPrefixTail::Capped));
        assert_eq!(most, table.rows().last().unwrap().cum_out);
        for amount in [1, 10_000_000, 50_000_000_000, 60_000_000_000, u64::MAX] {
            let result = compute_swap(amount, limit, wp, &seq, a_to_b, 0, None, &mut off());
            let result = result.unwrap();
            let expect = if a_to_b { result.token_b } else { result.token_a };
            assert_eq!(table.quote(amount, &seq, a_to_b), expect, "{amount}");
            let taken = if a_to_b { result.token_a } else { result.token_b };
            assert!(taken <= amount);
        }
    }
}

#[test]
fn row_inputs_are_the_rows_totals() {
    let seq = three_arrays();
    let wp = pool(ONE, 1_000_000_000_000);
    let mut table = SwapPrefixTable::start(price(-1_000), wp, true, 0, None);
    assert!(table.row_inputs().is_empty());
    table.quote(u64::MAX, &seq, true);
    let inputs = table.row_inputs();
    assert_eq!(inputs.len(), table.rows().len());
    assert!(inputs.windows(2).all(|pair| pair[0] < pair[1]));
    let first = table.rows()[0];
    assert_eq!(inputs[0], first.cum_in);
    assert_eq!(table.quote(inputs[0] as u64, &seq, true), first.cum_out);
}

#[test]
fn a_replay_that_reaches_its_target_answers_nothing() {
    let unit = SwapPrefixUnit {
        start: ONE,
        target: price(-640),
        liquidity: 1_000_000_000_000,
        fee_rate: 3_000,
    };
    assert_eq!(replay(unit, 5, u64::MAX, true), 0);
    assert_eq!(replay(unit, 5, 1_000_000, true), 997_004);
    assert_eq!(replay(unit, u64::MAX, 1_000_000, true), 0);
}

/// Any clock in the same branch of the reference walks alike.
#[test]
fn the_reference_branch_decides_the_quote() {
    let seq = three_arrays();
    let o = oracle(50_000, 1, 200_000);
    let info = AdaptiveFeeInfo::from(o);
    let wp = WhirlpoolFacade { fee_tier_index_seed: [0, 4], ..pool(ONE, 1_000_000_000_000) };
    let branch = |ts| o.adaptive_fee_variables.reference_branch(ts, &o.adaptive_fee_constants);
    for (t1, t2, expect) in [
        (1_000, 1_029, 2),
        (1_030, 1_599, 3),
        (1_600, 4_600, 4),
        (4_601, 1_000_000, 1),
    ] {
        assert_eq!((branch(t1), branch(t2)), (expect, expect));
        for amount in [1_000, 40_000_000_000] {
            let quote = |ts| {
                let mut table = SwapPrefixTable::start(0, wp, true, ts, Some(info));
                table.quote(amount, &seq, true)
            };
            assert_eq!(quote(t1), quote(t2));
            let swap = |ts| {
                let result =
                    compute_swap(amount, 0, wp, &seq, true, ts, Some(info), &mut off()).unwrap();
                (result.token_a, result.token_b)
            };
            assert_eq!(swap(t1), swap(t2));
        }
    }
    assert_eq!(branch(999), 0);
}

#[test]
fn a_reference_is_reduced_or_reset() {
    let o = oracle(7, 3, 40_000);
    let c = o.adaptive_fee_constants;
    let mut v = o.adaptive_fee_variables;
    assert_eq!(v.update_reference(9, 999, &c), Err(CoreError::InvalidTimestamp));
    assert_eq!(v, o.adaptive_fee_variables);
    assert_eq!(v.update_reference(9, 1_010, &c), Ok(()));
    assert_eq!(v, o.adaptive_fee_variables);
    assert_eq!(v.update_reference(9, 1_100, &c), Ok(()));
    assert_eq!((v.tick_group_index_reference, v.volatility_reference), (9, 2_000));
    assert_eq!(v.last_reference_update_timestamp, 1_100);
    assert_eq!(v.update_reference(4, 2_000, &c), Ok(()));
    assert_eq!((v.tick_group_index_reference, v.volatility_reference), (4, 0));
}

#[test]
fn the_volatility_grows_with_the_distance_up_to_its_maximum() {
    let o = oracle(7, 3, 0);
    let mut v = o.adaptive_fee_variables;
    v.update_volatility_accumulator(5, &o.adaptive_fee_constants);
    assert_eq!(v.volatility_accumulator, 20_007);
    v.update_volatility_accumulator(1, &o.adaptive_fee_constants);
    assert_eq!(v.volatility_accumulator, 20_007);
    v.update_volatility_accumulator(5_000, &o.adaptive_fee_constants);
    assert_eq!(v.volatility_accumulator, 88 * 3 * 10_000);
}

#[test]
fn the_fee_rate_adapts_up_to_its_limit() {
    let o = oracle(100_000, 0, 0);
    let info = Some(AdaptiveFeeInfo::from(o));
    let mut m = FeeRateManager::new(true, 0, 1_000, 1_000, &info, &mut off()).unwrap();
    m.update_volatility_accumulator();
    // 5_000 * (100_000 * 64)^2 / (100_000 * 10_000^2) is 20_480.
    assert_eq!(m.get_total_fee_rate(), 21_480);
    let far = Some(AdaptiveFeeInfo::from(oracle(88 * 3 * 10_000, 0, 0)));
    let mut m = FeeRateManager::new(true, 0, 1_000, 1_000, &far, &mut off()).unwrap();
    m.update_volatility_accumulator();
    assert_eq!(m.get_total_fee_rate(), 100_000);
    let m = FeeRateManager::new(true, 0, 1_000, 1_000, &None, &mut off()).unwrap();
    assert_eq!(m.get_total_fee_rate(), 1_000);
}

#[test]
fn the_fee_rate_holds_up_to_the_end_of_the_tick_group() {
    let info = Some(AdaptiveFeeInfo::from(oracle(100_000, 0, 0)));
    let mut m = FeeRateManager::new(true, 100, 1_000, 1_000, &info, &mut off()).unwrap();
    let far = price(-5_000);
    assert_eq!(m.get_bounded_sqrt_price_target(far, 1, &mut off()), (price(64), false));
    assert_eq!(m.get_bounded_sqrt_price_target(price(80), 1, &mut off()), (price(80), false));
    assert_eq!(m.get_bounded_sqrt_price_target(far, 0, &mut off()), (far, true));
    m.advance_tick_group();
    assert_eq!(m.get_bounded_sqrt_price_target(far, 1, &mut off()), (price(0), false));
    let m = FeeRateManager::new(false, 100, 1_000, 1_000, &info, &mut off()).unwrap();
    let far = price(5_000);
    assert_eq!(m.get_bounded_sqrt_price_target(far, 1, &mut off()), (price(128), false));
}

/// Outside of the core range the volatility is at its maximum, and the fee cannot change.
#[test]
fn the_core_range_bounds_the_skips() {
    // The maximum is reached one group away from the reference.
    let max = 88 * 3 * 10_000;
    let info = Some(AdaptiveFeeInfo::from(oracle(max - 10_000, 0, 0)));
    let mut m = FeeRateManager::new(true, 1_000, 1_000, 0, &info, &mut off()).unwrap();
    // The core range is the groups -1 to 1, so that it ends at tick 128.
    let far = price(-5_000);
    assert_eq!(m.get_bounded_sqrt_price_target(far, 1, &mut off()), (price(128), true));
    m.advance_tick_group_after_skip(price(128), price(-640), -640, &mut off());
    assert_eq!(m.get_bounded_sqrt_price_target(far, 1, &mut off()), (price(64), false));
}

/// Counting changes no amount, and the result reports the counts of its own walk.
#[test]
fn a_counted_swap_moves_the_same_amounts() {
    let seq = three_arrays();
    let wp = WhirlpoolFacade { protocol_fee_rate: 300, ..pool(ONE, 1_000_000_000_000) };
    let mut recorder = on();
    for amount in [1_000, 40_000_000_000] {
        let plain = compute_swap(amount, 0, wp, &seq, true, 0, None, &mut off()).unwrap();
        let counted = compute_swap(amount, 0, wp, &seq, true, 0, None, &mut recorder).unwrap();
        assert_eq!((plain.token_a, plain.token_b), (counted.token_a, counted.token_b));
        assert_eq!(plain.counters, SwapCounters::zero());
        let c = counted.counters;
        assert_eq!(c.substeps, c.tick_steps);
        assert_eq!(c.swap_steps, c.substeps);
        assert_eq!(c.adaptive_skips, 0);
        let ladders = c.ladder_pos_calls + c.ladder_neg_calls;
        assert_eq!(ladders, c.tick_steps + c.sqrt_to_tick_refines);
        let crossings = if amount == 1_000 { 0 } else { 1 };
        assert_eq!((c.tick_steps, c.liquidity_crossings), (1 + crossings, crossings));
        assert_eq!(c.sqrt_to_tick_calls, 1);
        // A completed step needs its input and its output, a partial one its input again.
        assert_eq!(c.amount_delta_a_calls, 2 + crossings);
        assert_eq!(c.amount_delta_b_calls, 1 + crossings);
        assert_eq!((c.next_sqrt_from_a_calls, c.next_sqrt_from_b_calls), (1, 0));
        assert_eq!(c.u128_divs, 1 + 2 * crossings);
        assert_eq!(c.u256_divs, c.amount_delta_a_calls + c.next_sqrt_from_a_calls);
    }
}

/// On an adaptive fee the steps are those of the tick groups.
#[test]
fn a_counted_adaptive_swap_steps_through_its_groups() {
    let seq = three_arrays();
    let wp = WhirlpoolFacade { fee_tier_index_seed: [0, 4], ..pool(ONE, 1_000_000_000_000) };
    let info = Some(AdaptiveFeeInfo::from(oracle(0, 0, 0)));
    let mut recorder = on();
    let result = compute_swap(10_000_000_000, 0, wp, &seq, true, 1_000, info, &mut recorder);
    let c = result.unwrap().counters;
    assert_eq!(c.tick_steps, 1);
    assert!(c.substeps > 1);
    assert_eq!(c.swap_steps, c.substeps);
    assert_eq!(c.adaptive_skips, 0);
    let before = recorder.counters;
    // Without liquidity there is nothing to update on the way.
    let empty = WhirlpoolFacade { liquidity: 0, ..wp };
    let result = compute_swap(1, price(-100), empty, &seq, true, 1_000, info, &mut recorder);
    let c = result.unwrap().counters;
    assert_eq!((c.tick_steps, c.substeps, c.adaptive_skips), (1, 1, 1));
    assert_eq!(c, recorder.counters.since(&before));
    // The sqrt price of tick -100 is one group below zero: a quotient of one bit, divided twice.
    assert_eq!((c.skip_tick_div_qbits, c.skip_tick_div_setbits), (2, 2));
}

#[test]
fn a_recorder_tells_what_it_can_take() {
    let mut recorder = off();
    recorder.counters.substeps = u32::MAX;
    assert!(recorder.can_take(1));
    set_enabled(&mut recorder, true);
    assert!(recorder.can_take(0));
    assert!(!recorder.can_take(1));
    recorder.counters.substeps = 5;
    recorder.counters.udiv_paths[27] = u32::MAX - 7;
    assert!(recorder.can_take(7));
    assert!(!recorder.can_take(8));
}

/// An amount within what is built leaves the table as it is, and a larger one goes on from there.
#[test]
fn a_smaller_amount_is_a_lookup() {
    let seq = three_arrays();
    let wp = pool(ONE, 1_000_000_000_000);
    let mut table = SwapPrefixTable::start(0, wp, true, 0, None);
    assert!(matches!(table.tail(), SwapPrefixTail::More(_)));
    table.quote(1_000_000, &seq, true);
    let built = table.row_inputs();
    assert_eq!(built.len(), 1);
    assert!(built[0] > 1_000_000);
    table.quote(5, &seq, true);
    assert_eq!(table.row_inputs(), built);
    table.quote(built[0] as u64, &seq, true);
    assert!(table.row_inputs().len() > 1);
    assert_eq!(table.row_inputs()[0], built[0]);
}

/// A row's sub-step is never completed by an amount that ends before its total.
#[test]
fn a_row_is_only_filled_in_part() {
    let seq = three_arrays();
    let wp = pool(ONE, 1_000_000_000_000);
    let mut table = SwapPrefixTable::start(price(-1_000), wp, true, 0, None);
    table.quote(u64::MAX, &seq, true);
    let mut before = 0;
    for row in table.rows() {
        let u = row.unit;
        let most = (row.cum_in - before - 1) as u64;
        let step = |amount| {
            compute_swap_step(amount, u.fee_rate, u.liquidity, u.start, u.target, true, &mut off())
                .unwrap()
        };
        assert_ne!(step(most).next_sqrt_price, u.target);
        assert_eq!(step(most + 1).next_sqrt_price, u.target);
        before = row.cum_in;
    }
}

/// The table answers as the walk does even where the tick of the pool is not that of its price.
#[test]
fn a_stray_tick_is_walked_alike() {
    let seq = three_arrays();
    for (tick_current_index, a_to_b) in [(1_000, true), (-1_000, true), (1_000, false), (-1_000, false)] {
        let wp = WhirlpoolFacade { tick_current_index, ..pool(ONE, 1_000_000_000_000) };
        let mut table = SwapPrefixTable::start(0, wp, a_to_b, 0, None);
        for amount in [1, 1_000_000, 33_000_000_000, 60_000_000_000, u64::MAX] {
            let result = compute_swap(amount, 0, wp, &seq, a_to_b, 0, None, &mut off());
            let expect = match result {
                Ok(r) => if a_to_b { r.token_b } else { r.token_a },
                Err(_) => 0,
            };
            assert_eq!(table.quote(amount, &seq, a_to_b), expect, "{tick_current_index} {amount}");
        }
    }
}
