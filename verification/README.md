# swap_prefix

Exact-in swaps over concentrated liquidity, quoted from a prefix table, with counters for the work
that a swap takes on chain. The library is written in Verus: every function states what it returns
and is proved to.

- `src/swap.rs`, `src/walk.rs`: a swap walks from one initialized tick to the next, and within such a
  leg from one bound of the fee rate to the next. `compute_swap` is proved to end and to give exactly
  what the walk comes to, whether or not its work is counted.
- `src/swap_prefix.rs`: a table of the running totals after each sub-step. `quote` is proved to answer
  every amount as `compute_swap` does, in whatever order amounts are asked for, and `0` where that
  fails, and to build the table just past the amount and no further.
- `src/prefix_laws.rs`: what holds of every such table. Its rows and its tail depend only on where it
  started and on the largest amount it has quoted.
- `src/timeless.rs`: what the clock decides. Two clocks in the same reference branch give the same
  swap, the same counts and the same table.
- `src/counters.rs`, `src/record.rs`: what has been counted. `src/div_path.rs` says which branch of a
  `u128` division two operands take, and `src/long_div.rs` is a 256-bit long division that counts
  those branches and is proved to divide.
- `src/growth.rs`: how far the counts of an operation go, and that they fit in between where they fit
  at its end.
- `src/walk_shape.rs`: what the counts say of the shape of a walk.
- `src/tick_math.rs`, `src/token_math.rs`, `src/swap_step.rs`, `src/tick_array.rs`, `src/pool.rs`,
  `src/adaptive_fee.rs`, `src/fee_rate_manager.rs`: what a walk is made of.
- `src/u256.rs`: 256-bit arithmetic of the `ethnum` crate, which is trusted.
- `app/`: counting on the calling thread.
