use swap_prefix::counters::Recorder;
use swap_prefix::record::record_udiv;
use swap_prefix::swap_prefix::replay;
use swap_prefix::swap_step::compute_swap_step;
use swap_prefix::{
    compute_swap, swap_is_valid, swap_shares_fit, tick_index_to_sqrt_price, AdaptiveFeeConstantsFacade,
    AdaptiveFeeInfo, AdaptiveFeeVariablesFacade, SwapPrefixTable, SwapPrefixTail, TickArrayFacade,
    TickArraySequence, TickFacade, WhirlpoolFacade, SWAP_ROOM,
};

fn price(tick: i32) -> u128 {
    tick_index_to_sqrt_price(tick, &mut Recorder::new())
}

fn pool(liquidity: u128, adaptive: bool) -> WhirlpoolFacade {
    WhirlpoolFacade {
        fee_tier_index_seed: if adaptive { [200, 0] } else { [64, 0] },
        tick_spacing: 64,
        fee_rate: 3000,
        protocol_fee_rate: 1300,
        liquidity,
        sqrt_price: price(0),
        tick_current_index: 0,
    }
}

fn info() -> AdaptiveFeeInfo {
    AdaptiveFeeInfo {
        constants: AdaptiveFeeConstantsFacade {
            filter_period: 30,
            decay_period: 600,
            adaptive_fee_control_factor: 5_000,
            reduction_factor: 500,
            max_volatility_accumulator: 88 * 3 * 10_000,
            tick_group_size: 64,
            major_swap_threshold_ticks: 64,
        },
        variables: AdaptiveFeeVariablesFacade {
            last_reference_update_timestamp: 1_000,
            last_major_swap_timestamp: 1_000,
            volatility_reference: 0,
            tick_group_index_reference: 0,
            volatility_accumulator: 0,
        },
    }
}

/// Arrays on both sides of tick 0 with an initialized tick in every slot whose number `every`
/// divides.
fn arrays(every: usize, net: i128) -> TickArraySequence {
    let span = 88 * 64;
    let mut arrays = Vec::new();
    for start in [-2 * span, -span, 0, span] {
        let mut ticks = [TickFacade::default(); 88];
        for (slot, tick) in ticks.iter_mut().enumerate() {
            if slot % every == 0 {
                let liquidity_net = if start < 0 { net } else { -net };
                *tick = TickFacade { initialized: true, liquidity_net, ..TickFacade::default() };
            }
        }
        arrays.push(Some(TickArrayFacade { start_tick_index: start, ticks }));
    }
    TickArraySequence::new(arrays, 64).unwrap()
}

/// The rows and the tail of a table, written out.
fn contents(table: &SwapPrefixTable) -> String {
    format!("{:?} {:?}", table.rows(), table.tail())
}

#[test]
fn only_the_largest_quote_shows_in_the_table() {
    let ticks = arrays(3, 1_000);
    for a_to_b in [true, false] {
        for adaptive_fee_info in [None, Some(info())] {
            let wp = pool(1_000_000_000, adaptive_fee_info.is_some());
            let start = || SwapPrefixTable::start(0, wp, a_to_b, 1_000, adaptive_fee_info);
            for largest in [1_000, 5_000_000, 80_000_000, u64::MAX] {
                let mut at_once = start();
                at_once.quote(largest, &ticks, a_to_b);
                for order in [
                    [1, 999, largest, 500],
                    [largest, 1, 500, 999],
                    [999, 500, 1, largest],
                    [500, largest, 999, largest],
                ] {
                    let mut table = start();
                    for amount in order {
                        table.quote(amount, &ticks, a_to_b);
                    }
                    assert_eq!(contents(&table), contents(&at_once));
                }
            }
        }
    }
}

#[test]
fn a_table_is_built_just_past_its_amount() {
    let ticks = arrays(1, 1_000);
    let wp = pool(1_000_000_000, false);
    for a_to_b in [true, false] {
        let mut table = SwapPrefixTable::start(0, wp, a_to_b, 0, None);
        let mut before = 0;
        for amount in [1, 3_000_000, 3_500_000, 20_000_000, 100_000_000] {
            table.quote(amount, &ticks, a_to_b);
            let inputs = table.row_inputs();
            let n = inputs.len();
            // A leg of a static fee is one row, so the last row alone is past the amount.
            assert!(matches!(table.tail(), SwapPrefixTail::More(_)));
            assert!(inputs[n - 1] > amount as u128);
            assert!(n < 2 || inputs[n - 2] <= amount as u128);
            assert!(n >= before);
            before = n;
        }
    }
}

#[test]
fn a_table_that_has_ended_stays_as_it_is() {
    let wp = pool(1_000_000, false);
    // The ticks run out, the limit is reached, and a crossing fails.
    for (ticks, limit) in [
        (arrays(20, 1_000), 0),
        (arrays(20, 1_000), price(-100)),
        (arrays(20, 5_000_000), 0),
    ] {
        let mut table = SwapPrefixTable::start(limit, wp, true, 0, None);
        table.quote(u64::MAX, &ticks, true);
        assert!(!matches!(table.tail(), SwapPrefixTail::More(_)));
        let ended = contents(&table);
        for amount in [0, 1, 1_000_000, u64::MAX] {
            table.quote(amount, &ticks, true);
            assert_eq!(contents(&table), ended);
        }
    }
}

#[test]
fn each_end_of_the_walk_has_its_tail() {
    let build = |liquidity: u128, ticks: TickArraySequence, limit: u128| {
        let wp = WhirlpoolFacade { tick_current_index: -1, ..pool(liquidity, false) };
        let mut table = SwapPrefixTable::start(limit, wp, true, 0, None);
        table.quote(u64::MAX, &ticks, true);
        table
    };
    // The limit is reached.
    let capped = build(1_000_000, arrays(20, 1_000), price(-100));
    assert!(matches!(capped.tail(), SwapPrefixTail::Capped));
    assert_eq!(capped.rows().len(), 1);
    assert_eq!(capped.rows()[0].unit.target, price(-100));
    // The ticks run out.
    let stopped = build(1_000_000, arrays(20, 1_000), 0);
    assert!(matches!(stopped.tail(), SwapPrefixTail::Stop));
    assert!(!stopped.rows().is_empty());
    // A crossing fails behind a step that takes something: no row for it.
    let open = build(1_000_000, arrays(20, 5_000_000), 0);
    match open.tail() {
        SwapPrefixTail::Open(unit) => {
            assert!(open.rows().is_empty());
            assert_eq!((unit.start, unit.target), (price(0), price(-512)));
        }
        tail => panic!("{tail:?}"),
    }
    // A crossing fails behind a step that takes nothing.
    let nothing = build(0, arrays(20, 5_000_000), 0);
    assert!(matches!(nothing.tail(), SwapPrefixTail::Stop));
    assert!(nothing.rows().is_empty());
}

#[test]
fn rows_rise_and_add_up() {
    let ticks = arrays(5, 1_000);
    for a_to_b in [true, false] {
        for adaptive_fee_info in [None, Some(info())] {
            let wp = pool(1_000_000_000, adaptive_fee_info.is_some());
            let mut table = SwapPrefixTable::start(0, wp, a_to_b, 1_000, adaptive_fee_info);
            table.quote(100_000_000, &ticks, a_to_b);
            assert!(table.rows().len() > 5);
            let (mut total_in, mut total_out) = (0u128, 0u64);
            for row in table.rows() {
                let full = compute_swap_step(
                    u64::MAX,
                    row.unit.fee_rate,
                    row.unit.liquidity,
                    row.unit.start,
                    row.unit.target,
                    a_to_b,
                    &mut Recorder::new(),
                )
                .unwrap();
                assert_eq!(full.next_sqrt_price, row.unit.target);
                let consumed = full.amount_in as u128 + full.fee_amount as u128;
                assert!(consumed > 0);
                total_in += consumed;
                total_out += full.amount_out;
                assert_eq!((row.cum_in, row.cum_out), (total_in, total_out));
            }
        }
    }
}

#[test]
fn valid_swaps_are_told_from_others() {
    let fixed = pool(1_000, false);
    let adaptive = pool(1_000, true);
    for a_to_b in [true, false] {
        assert!(swap_is_valid(0, &fixed, a_to_b, &None));
        assert!(swap_is_valid(0, &adaptive, a_to_b, &Some(info())));
        // Refused at once, whatever else holds.
        let stray = WhirlpoolFacade { tick_current_index: 443_637, ..fixed };
        assert!(!swap_is_valid(0, &stray, a_to_b, &None));
        assert!(swap_is_valid(1, &stray, a_to_b, &None));
        assert!(swap_is_valid(0, &stray, a_to_b, &Some(info())));
        assert!(!swap_is_valid(0, &WhirlpoolFacade { tick_current_index: -443_637, ..fixed }, a_to_b, &None));
    }
    // The sqrt price is beyond the price range.
    assert!(!swap_is_valid(0, &WhirlpoolFacade { sqrt_price: u128::MAX, ..fixed }, true, &None));
    assert!(!swap_is_valid(0, &WhirlpoolFacade { sqrt_price: 1, ..fixed }, false, &None));
    // The sqrt price is beyond the tick group of the tick.
    let below = WhirlpoolFacade { sqrt_price: price(0) - 1, ..adaptive };
    assert!(!swap_is_valid(0, &below, true, &Some(info())));
    assert!(swap_is_valid(0, &below, false, &Some(info())));
    let above = WhirlpoolFacade { sqrt_price: price(64) + 1, ..adaptive };
    assert!(!swap_is_valid(0, &above, false, &Some(info())));
    assert!(swap_is_valid(0, &above, true, &Some(info())));
    let mut still = info();
    still.constants.adaptive_fee_control_factor = 0;
    assert!(swap_is_valid(0, &below, true, &Some(still)));
}

#[test]
fn adaptive_fees_out_of_range_are_not_valid() {
    let wp = pool(1_000, true);
    let cases: [fn(&mut AdaptiveFeeInfo); 6] = [
        |info| info.constants.tick_group_size = 0,
        |info| info.constants.reduction_factor = 10_001,
        |info| info.variables.volatility_reference = 88 * 3 * 10_000 + 1,
        |info| info.variables.volatility_accumulator = 88 * 3 * 10_000 + 1,
        |info| info.variables.tick_group_index_reference = 6_932,
        |info| info.variables.tick_group_index_reference = -6_933,
    ];
    for spoil in cases {
        let mut spoilt = info();
        spoil(&mut spoilt);
        assert!(!swap_is_valid(0, &wp, true, &Some(spoilt)));
    }
    let mut outermost = info();
    outermost.variables.tick_group_index_reference = 6_931;
    assert!(swap_is_valid(0, &wp, true, &Some(outermost)));
    outermost.variables.tick_group_index_reference = -6_932;
    assert!(swap_is_valid(0, &wp, true, &Some(outermost)));
}

#[test]
fn a_full_count_does_not_hinder_another() {
    let mut recorder = Recorder::new();
    recorder.on = true;
    recorder.counters.u256_muls = u32::MAX;
    assert!(!recorder.can_take(1));
    record_udiv(&mut recorder, 7, 3);
    record_udiv(&mut recorder, 7, 0);
    assert_eq!(recorder.counters.udiv_paths.iter().sum::<u32>(), 1);
    assert_eq!(recorder.counters.u256_muls, u32::MAX);
}

#[test]
fn a_swap_fits_its_room() {
    let ticks = arrays(1, 1_000);
    let mut recorder = Recorder::new();
    recorder.on = true;
    recorder.counters.tick_steps = u32::MAX - SWAP_ROOM;
    assert!(recorder.can_take(SWAP_ROOM));
    let wp = pool(1_000_000_000, true);
    let result =
        compute_swap(u64::MAX, price(-6_000), wp, &ticks, true, 1_000, Some(info()), &mut recorder)
            .unwrap();
    assert!(result.counters.tick_steps > 90);
    assert_eq!(recorder.counters.tick_steps, u32::MAX - SWAP_ROOM + result.counters.tick_steps);
}

#[test]
fn any_protocol_rate_is_counted_where_there_is_no_fee() {
    let ticks = arrays(20, 1_000);
    let wp = WhirlpoolFacade { fee_rate: 0, protocol_fee_rate: 20_000, ..pool(1_000_000, false) };
    let mut recorder = Recorder::new();
    let quiet =
        compute_swap(u64::MAX, price(-600), wp, &ticks, true, 0, None, &mut recorder).unwrap();
    recorder.on = true;
    let counted =
        compute_swap(u64::MAX, price(-600), wp, &ticks, true, 0, None, &mut recorder).unwrap();
    assert_eq!((quiet.token_a, quiet.token_b), (counted.token_a, counted.token_b));
    assert_eq!(counted.counters.swap_steps, 3);
}

#[test]
fn clocks_of_one_branch_walk_and_count_alike() {
    let ticks = arrays(3, 1_000);
    let wp = pool(1_000_000_000, true);
    // Kept, reduced, and reset references.
    for (t1, t2) in [(1_000, 1_029), (1_030, 1_599), (1_600, 4_000)] {
        for a_to_b in [true, false] {
            let branch = |t: u64| info().variables.reference_branch(t, &info().constants);
            assert_eq!(branch(t1), branch(t2));
            let count = |t: u64| {
                let mut recorder = Recorder::new();
                recorder.on = true;
                compute_swap(60_000_000, 0, wp, &ticks, a_to_b, t, Some(info()), &mut recorder)
                    .unwrap()
            };
            assert_eq!(count(t1), count(t2));
            let table = |t: u64| {
                let mut table = SwapPrefixTable::start(0, wp, a_to_b, t, Some(info()));
                assert_eq!(table.timestamp(), t);
                table.quote(60_000_000, &ticks, a_to_b);
                table
            };
            assert!(table(t1).rows().len() > 5);
            assert_eq!(format!("{:?}", table(t1).rows()), format!("{:?}", table(t2).rows()));
        }
    }
}

#[test]
fn a_table_can_be_written_out() {
    let table = SwapPrefixTable::start(0, pool(1, false), true, 7, None);
    let written = format!("{table:?}");
    assert!(written.contains("rows: []"));
    assert!(written.contains("timestamp: 7"));
    assert_eq!(format!("{:?}", table.clone()), written);
}

#[test]
fn the_tail_answers_past_the_last_row() {
    let answer = |ticks: &TickArraySequence, limit: u128| {
        let mut table = SwapPrefixTable::start(limit, pool(1_000_000, false), true, 0, None);
        table.quote(u64::MAX, ticks, true);
        let (built, given) = table.rows().last().map_or((0, 0), |row| (row.cum_in, row.cum_out));
        for left in [1, 2, 1_000, 1_000_000_000] {
            let expected = match table.tail() {
                SwapPrefixTail::Stop => 0,
                SwapPrefixTail::Capped => given,
                SwapPrefixTail::Open(unit) => replay(*unit, given, left, true),
                SwapPrefixTail::More(_) => panic!("the walk ends"),
            };
            let tail = format!("{:?}", table.tail());
            assert_eq!(table.quote(built as u64 + left, ticks, true), expected, "{tail}");
        }
        (given, table.tail().clone())
    };
    assert!(matches!(answer(&arrays(20, 1_000), 0), (1.., SwapPrefixTail::Stop)));
    assert!(matches!(answer(&arrays(20, 1_000), price(-100)), (1.., SwapPrefixTail::Capped)));
    assert!(matches!(answer(&arrays(20, 5_000_000), 0), (_, SwapPrefixTail::Open(_))));
}

#[test]
fn a_price_at_its_tick_is_in_its_group() {
    for tick in [-443_636, -443_635, -129, -128, -65, -64, -1, 0, 1, 63, 64, 100, 443_635, 443_636] {
        for sqrt_price in [price(tick), price((tick + 1).min(443_636))] {
            let wp = WhirlpoolFacade { tick_current_index: tick, sqrt_price, ..pool(1, true) };
            for a_to_b in [true, false] {
                assert!(swap_is_valid(0, &wp, a_to_b, &Some(info())), "{tick}");
            }
        }
    }
}

#[test]
fn shares_above_their_fee_are_told() {
    let ticks = arrays(20, 1_000);
    let wp = |fee_rate: u16, protocol_fee_rate: u16| WhirlpoolFacade {
        fee_rate,
        protocol_fee_rate,
        ..pool(1_000_000, false)
    };
    let fit = |wp: WhirlpoolFacade, amount: u64, limit: u128| {
        swap_shares_fit(amount, limit, wp, &ticks, true, 0, None)
    };
    assert!(fit(wp(3_000, 10_000), 1_000_000, 0));
    assert!(!fit(wp(3_000, 20_000), 1_000_000, 0));
    // Without a fee there is no share, and a refused swap has none.
    assert!(fit(wp(0, 20_000), u64::MAX, price(-600)));
    assert!(fit(wp(3_000, 20_000), 0, 0));
    assert!(fit(wp(3_000, 20_000), 1_000_000, 1));
    // A share is rounded down.
    assert!(fit(wp(3_000, 10_001), 1_000_000, 0));
}
