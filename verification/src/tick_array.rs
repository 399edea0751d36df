//! Ticks, the arrays that hold them, and the sequence of arrays that a swap walks over.

use crate::arith;
use crate::error::CoreError;
use crate::tick_math::{MAX_TICK_INDEX, MIN_TICK_INDEX};
use vstd::multiset::*;
use vstd::prelude::*;
use vstd::seq_lib::*;

verus! {

/// The number of ticks in a tick array.
pub const TICK_ARRAY_SIZE: usize = 88;

/// A tick of a pool.
#[derive(Debug, Clone, Copy, PartialEq, Eq)]
pub struct TickFacade {
    pub initialized: bool,
    pub liquidity_net: i128,
    pub liquidity_gross: u128,
    pub fee_growth_outside_a: u128,
    pub fee_growth_outside_b: u128,
    pub reward_growths_outside: [u128; 3],
}

impl Default for TickFacade {
    /// A tick that is not initialized.
    fn default() -> (r: Self)
        ensures
            !r.initialized,
            r.liquidity_net == 0,
            r.liquidity_gross == 0,
            r.fee_growth_outside_a == 0,
            r.fee_growth_outside_b == 0,
            r.reward_growths_outside@ == seq![0u128, 0, 0],
    {
        let reward_growths_outside: [u128; 3] = [0, 0, 0];
        TickFacade {
            initialized: false,
            liquidity_net: 0,
            liquidity_gross: 0,
            fee_growth_outside_a: 0,
            fee_growth_outside_b: 0,
            reward_growths_outside,
        }
    }
}

/// The ticks from `start_tick_index` on, one for every `tick_spacing` tick indexes.
#[derive(Debug, Clone, Copy, PartialEq, Eq)]
pub struct TickArrayFacade {
    pub start_tick_index: i32,
    pub ticks: [TickFacade; TICK_ARRAY_SIZE],
}

/// Tick arrays that follow one another, as a swap sees them.
pub ghost struct TickSequence {
    pub arrays: Seq<TickArrayFacade>,
    pub spacing: nat,
}

/// The arrays that are there.
pub open spec fn present(arrays: Seq<Option<TickArrayFacade>>) -> Seq<TickArrayFacade>
    decreases arrays.len(),
{
    if arrays.len() == 0 {
        Seq::empty()
    } else {
        match arrays.last() {
            Some(array) => present(arrays.drop_last()).push(array),
            None => present(arrays.drop_last()),
        }
    }
}

/// `ordered` holds the given arrays in ascending order of their start indexes.
pub open spec fn orders(ordered: Seq<TickArrayFacade>, arrays: Seq<TickArrayFacade>) -> bool {
    &&& ordered.to_multiset() == arrays.to_multiset()
    &&& forall|i: int, j: int|
        0 <= i < j < ordered.len() ==> (#[trigger] ordered[i]).start_tick_index <= (
        #[trigger] ordered[j]).start_tick_index
}

/// Each array starts where the one before it ends.
pub open spec fn evenly_spaced(arrays: Seq<TickArrayFacade>, spacing: int) -> bool {
    forall|i: int|
        0 <= i < arrays.len() ==> (#[trigger] arrays[i]).start_tick_index
            == arrays[0].start_tick_index + i * (TICK_ARRAY_SIZE * spacing)
}

impl TickSequence {
    /// There are arrays, they have a spacing, and they follow one another.
    pub open spec fn well_formed(self) -> bool {
        &&& self.arrays.len() > 0
        &&& 0 < self.spacing <= u16::MAX
        &&& evenly_spaced(self.arrays, self.spacing as int)
    }

    /// The tick index at which the first array starts.
    pub open spec fn first(self) -> int {
        self.arrays[0].start_tick_index as int
    }

    /// The lowest tick index that the arrays cover.
    pub open spec fn start_index(self) -> int {
        if self.first() > MIN_TICK_INDEX {
            self.first()
        } else {
            MIN_TICK_INDEX as int
        }
    }

    /// The highest tick index that the arrays cover.
    pub open spec fn end_index(self) -> int {
        let end = self.arrays.last().start_tick_index + TICK_ARRAY_SIZE * self.spacing - 1;
        if end < MAX_TICK_INDEX {
            end
        } else {
            MAX_TICK_INDEX as int
        }
    }

    /// How many ticks precede a tick index.
    pub open spec fn slot(self, index: int) -> int {
        (index - self.first()) / (self.spacing as int)
    }

    /// The tick at a tick index.
    pub open spec fn tick_at(self, index: int) -> TickFacade {
        self.arrays[self.slot(index) / (TICK_ARRAY_SIZE as int)].ticks@[self.slot(index) % (
        TICK_ARRAY_SIZE as int)]
    }

    /// There is an initialized tick at a tick index.
    pub open spec fn initialized_at(self, index: int) -> bool {
        &&& self.start_index() <= index <= self.end_index()
        &&& (index - self.first()) % (self.spacing as int) == 0
        &&& self.tick_at(index).initialized
    }

    /// The last initialized tick index from `floor` to `index`.
    pub open spec fn last_initialized(self, index: int, floor: int) -> Option<int>
        decreases index - floor + 1,
    {
        if index < floor {
            None
        } else if self.initialized_at(index) {
            Some(index)
        } else {
            self.last_initialized(index - 1, floor)
        }
    }

    /// The first initialized tick index from `index` to `ceiling`.
    pub open spec fn first_initialized(self, index: int, ceiling: int) -> Option<int>
        decreases ceiling - index + 1,
    {
        if index > ceiling {
            None
        } else if self.initialized_at(index) {
            Some(index)
        } else {
            self.first_initialized(index + 1, ceiling)
        }
    }

    /// The last initialized tick that is not above a tick index, or the start of the arrays where
    /// there is none. The tick index has to be within the arrays.
    pub open spec fn prev(self, index: int) -> Result<(Option<TickFacade>, i32), CoreError> {
        if index < self.start_index() || index > self.end_index() {
            Err(CoreError::InvalidTickArraySequence)
        } else {
            match self.last_initialized(index, self.start_index()) {
                Some(found) => Ok((Some(self.tick_at(found)), found as i32)),
                None => Ok((None, self.start_index() as i32)),
            }
        }
    }

    /// The first initialized tick above a tick index, or the end of the arrays where there is none.
    /// The tick index has to be below the end, and at most one tick before the start.
    pub open spec fn next(self, index: int) -> Result<(Option<TickFacade>, i32), CoreError> {
        if index < self.start_index() - self.spacing || index >= self.end_index() {
            Err(CoreError::InvalidTickArraySequence)
        } else {
            match self.first_initialized(index + 1, self.end_index()) {
                Some(found) => Ok((Some(self.tick_at(found)), found as i32)),
                None => Ok((None, self.end_index() as i32)),
            }
        }
    }
}

/// Tick indexes without an initialized tick do not matter for the last one.
proof fn lemma_last_initialized_skips(m: TickSequence, from: int, to: int, floor: int)
    requires
        to <= from,
        forall|i: int| to < i <= from ==> !#[trigger] m.initialized_at(i),
    ensures
        m.last_initialized(from, floor) == m.last_initialized(to, floor),
    decreases from - to,
{
    if to < from {
        if from >= floor {
            assert(!m.initialized_at(from));
            lemma_last_initialized_skips(m, from - 1, to, floor);
        } else {
            assert(m.last_initialized(to, floor) is None);
        }
    }
}

/// Tick indexes without an initialized tick do not matter for the first one.
proof fn lemma_first_initialized_skips(m: TickSequence, from: int, to: int, ceiling: int)
    requires
        from <= to,
        forall|i: int| from <= i < to ==> !#[trigger] m.initialized_at(i),
    ensures
        m.first_initialized(from, ceiling) == m.first_initialized(to, ceiling),
    decreases to - from,
{
    if from < to {
        if from <= ceiling {
            assert(!m.initialized_at(from));
            lemma_first_initialized_skips(m, from + 1, to, ceiling);
        } else {
            assert(m.first_initialized(to, ceiling) is None);
        }
    }
}

/// The last initialized tick index is one, and not above where the search began.
pub proof fn lemma_last_initialized(m: TickSequence, index: int, floor: int)
    ensures
        m.last_initialized(index, floor) matches Some(i) ==> floor <= i <= index
            && m.initialized_at(i),
    decreases index - floor + 1,
{
    if index >= floor && !m.initialized_at(index) {
        lemma_last_initialized(m, index - 1, floor);
    }
}

/// The first initialized tick index is one, and not below where the search began.
pub proof fn lemma_first_initialized(m: TickSequence, index: int, ceiling: int)
    ensures
        m.first_initialized(index, ceiling) matches Some(i) ==> index <= i <= ceiling
            && m.initialized_at(i),
    decreases ceiling - index + 1,
{
    if index <= ceiling && !m.initialized_at(index) {
        lemma_first_initialized(m, index + 1, ceiling);
    }
}

/// A covered tick index is in one of the arrays.
pub proof fn lemma_slot(m: TickSequence, index: int)
    requires
        m.well_formed(),
        m.start_index() <= index <= m.end_index(),
    ensures
        0 <= m.slot(index) <= index - m.first(),
        m.slot(index) / (TICK_ARRAY_SIZE as int) < m.arrays.len(),
{
    let n = m.arrays.len() as int;
    let s = m.spacing as int;
    let size = TICK_ARRAY_SIZE as int;
    assert(m.arrays.last() == m.arrays[n - 1]);
    assert((n - 1) * (size * s) + size * s == s * (n * size)) by (nonlinear_arith);
    arith::lemma_floor_at_least(index - m.first(), s, n * size);
    arith::lemma_floor_at_least(index - m.first(), s, 0);
    assert(m.slot(index) <= index - m.first()) by {
        arith::lemma_floor_at_least(index - m.first(), s, index - m.first() + 1);
        assert(s * (index - m.first() + 1) > index - m.first()) by (nonlinear_arith)
            requires
                s > 0,
                index - m.first() >= 0,
        ;
    }
}

/// The tick index of a tick has no remainder.
proof fn lemma_at_tick(m: TickSequence, slot: int)
    requires
        m.spacing > 0,
    ensures
        m.slot(m.first() + slot * m.spacing) == slot,
        (m.first() + slot * m.spacing - m.first()) % (m.spacing as int) == 0,
{
    arith::lemma_div_mod_unique(slot * m.spacing, m.spacing as int, slot, 0);
}

/// Between two ticks there is none.
proof fn lemma_between_ticks(m: TickSequence, slot: int)
    requires
        m.spacing > 0,
    ensures
        forall|i: int|
            m.first() + slot * m.spacing < i < m.first() + slot * m.spacing + m.spacing
                ==> !#[trigger] m.initialized_at(i),
{
    assert forall|i: int|
        m.first() + slot * m.spacing < i < m.first() + slot * m.spacing
            + m.spacing implies !#[trigger] m.initialized_at(i) by {
        arith::lemma_div_mod_unique(
            i - m.first(),
            m.spacing as int,
            slot,
            i - m.first() - slot * m.spacing,
        );
    }
}

/// Looking down finds a tick index in range that is not above; looking up finds one that is above.
pub proof fn law_neighbours_are_in_range(m: TickSequence, index: int)
    requires
        m.well_formed(),
        MIN_TICK_INDEX - 1 <= index <= MAX_TICK_INDEX,
    ensures
        m.prev(index) matches Ok((_, i)) ==> MIN_TICK_INDEX <= i <= index,
        m.next(index) matches Ok((_, i)) ==> index < i <= MAX_TICK_INDEX,
{
    lemma_last_initialized(m, index, m.start_index());
    lemma_first_initialized(m, index + 1, m.end_index());
}

/// The tick arrays that a swap walks over.
pub struct TickArraySequence {
    tick_arrays: Vec<TickArrayFacade>,
    tick_spacing: u16,
}

impl View for TickArraySequence {
    type V = TickSequence;

    closed spec fn view(&self) -> TickSequence {
        TickSequence { arrays: self.tick_arrays@, spacing: self.tick_spacing as nat }
    }
}

/// Put an array into its place among ordered ones.
fn insert_ordered(ordered: &mut Vec<TickArrayFacade>, array: TickArrayFacade)
    requires
        forall|i: int, j: int|
            0 <= i < j < old(ordered)@.len() ==> (#[trigger] old(ordered)@[i]).start_tick_index <= (
            #[trigger] old(ordered)@[j]).start_tick_index,
    ensures
        final(ordered)@.to_multiset() == old(ordered)@.to_multiset().insert(array),
        forall|i: int, j: int|
            0 <= i < j < final(ordered)@.len() ==> (#[trigger] final(ordered)@[i]).start_tick_index
                <= (#[trigger] final(ordered)@[j]).start_tick_index,
{
    let mut place: usize = ordered.len();
    while place > 0 && ordered[place - 1].start_tick_index > array.start_tick_index
        invariant
            place <= ordered@.len(),
            ordered@ == old(ordered)@,
            forall|i: int|
                place <= i < ordered@.len() ==> (#[trigger] ordered@[i]).start_tick_index
                    > array.start_tick_index,
        decreases place,
    {
        place = place - 1;
    }
    proof {
        to_multiset_insert(ordered@, place as int, array);
    }
    ordered.insert(place, array);
}

impl TickArraySequence {
    /// The given arrays in order. There has to be one, and they have to follow one another.
    pub fn new(tick_arrays: Vec<Option<TickArrayFacade>>, tick_spacing: u16) -> (r: Result<
        Self,
        CoreError,
    >)
        requires
            tick_spacing > 0,
        ensures
            match r {
                Ok(sequence) => {
                    &&& sequence@.well_formed()
                    &&& orders(sequence@.arrays, present(tick_arrays@))
                    &&& sequence@.spacing == tick_spacing
                },
                Err(CoreError::TickSequenceEmpty) => present(tick_arrays@).len() == 0,
                Err(CoreError::TickArrayNotEvenlySpaced) => exists|ordered: Seq<TickArrayFacade>|
                    orders(ordered, present(tick_arrays@)) && !#[trigger] evenly_spaced(
                        ordered,
                        tick_spacing as int,
                    ),
                Err(_) => false,
            },
    {
        let mut ordered: Vec<TickArrayFacade> = Vec::new();
        let mut i: usize = 0;
        while i < tick_arrays.len()
            invariant
                i <= tick_arrays@.len(),
                orders(ordered@, present(tick_arrays@.take(i as int))),
            decreases tick_arrays@.len() - i,
        {
            proof {
                assert(tick_arrays@.take(i + 1).drop_last() =~= tick_arrays@.take(i as int));
                assert(tick_arrays@.take(i + 1).last() == tick_arrays@[i as int]);
            }
            match tick_arrays[i] {
                Some(array) => {
                    proof {
                        to_multiset_build(present(tick_arrays@.take(i as int)), array);
                    }
                    insert_ordered(&mut ordered, array);
                },
                None => {},
            }
            i = i + 1;
        }
        assert(tick_arrays@.take(i as int) =~= tick_arrays@);
        proof {
            broadcast use group_to_multiset_ensures;

            assert(ordered@.to_multiset().len() == ordered@.len());
            assert(present(tick_arrays@).to_multiset().len() == present(tick_arrays@).len());
        }
        if ordered.len() == 0 {
            return Err(CoreError::TickSequenceEmpty);
        }
        let span: i64 = 88 * tick_spacing as i64;
        assert(0 * (TICK_ARRAY_SIZE * tick_spacing) == 0) by (nonlinear_arith);
        let mut k: usize = 1;
        while k < ordered.len()
            invariant
                1 <= k <= ordered@.len(),
                span == TICK_ARRAY_SIZE * tick_spacing,
                orders(ordered@, present(tick_arrays@)),
                forall|j: int|
                    0 <= j < k ==> (#[trigger] ordered@[j]).start_tick_index
                        == ordered@[0].start_tick_index + j * (TICK_ARRAY_SIZE * tick_spacing),
            decreases ordered@.len() - k,
        {
            proof {
                assert((k - 1) * (TICK_ARRAY_SIZE * tick_spacing) + TICK_ARRAY_SIZE * tick_spacing
                    == k * (TICK_ARRAY_SIZE * tick_spacing)) by (nonlinear_arith);
            }
            if ordered[k].start_tick_index as i64 - ordered[k - 1].start_tick_index as i64 != span {
                assert(!evenly_spaced(ordered@, tick_spacing as int)) by {
                    assert(ordered@[k - 1].start_tick_index == ordered@[0].start_tick_index + (k
                        - 1) * (TICK_ARRAY_SIZE * tick_spacing));
                    assert(ordered@[k as int].start_tick_index != ordered@[0].start_tick_index + k
                        * (TICK_ARRAY_SIZE * tick_spacing));
                }
                return Err(CoreError::TickArrayNotEvenlySpaced);
            }
            k = k + 1;
        }
        Ok(TickArraySequence { tick_arrays: ordered, tick_spacing })
    }

    /// The lowest tick index that the arrays cover.
    pub fn start_index(&self) -> (r: i32)
        requires
            self@.well_formed(),
        ensures
            r == self@.start_index(),
    {
        if self.tick_arrays[0].start_tick_index > MIN_TICK_INDEX {
            self.tick_arrays[0].start_tick_index
        } else {
            MIN_TICK_INDEX
        }
    }

    /// The highest tick index that the arrays cover.
    pub fn end_index(&self) -> (r: i32)
        requires
            self@.well_formed(),
        ensures
            r == self@.end_index(),
    {
        let last: i64 = self.tick_arrays[self.tick_arrays.len() - 1].start_tick_index as i64;
        let end: i64 = last + 88 * self.tick_spacing as i64 - 1;
        if end < MAX_TICK_INDEX as i64 {
            end as i32
        } else {
            MAX_TICK_INDEX
        }
    }

    /// The tick at a tick index that is `slot` ticks from the start.
    fn tick(&self, slot: usize) -> (r: TickFacade)
        requires
            slot / TICK_ARRAY_SIZE < self@.arrays.len(),
        ensures
            r == self@.arrays[slot as int / TICK_ARRAY_SIZE as int].ticks@[slot as int
                % TICK_ARRAY_SIZE as int],
    {
        self.tick_arrays[slot / TICK_ARRAY_SIZE].ticks[slot % TICK_ARRAY_SIZE]
    }

    /// The last initialized tick that is not above `tick_index`, or the start of the arrays.
    pub fn prev_initialized_tick(&self, tick_index: i32) -> (r: Result<
        (Option<TickFacade>, i32),
        CoreError,
    >)
        requires
            self@.well_formed(),
        ensures
            r == self@.prev(tick_index as int),
    {
        let start: i32 = self.start_index();
        if tick_index < start || tick_index > self.end_index() {
            return Err(CoreError::InvalidTickArraySequence);
        }
        let first: i64 = self.tick_arrays[0].start_tick_index as i64;
        let spacing: i64 = self.tick_spacing as i64;
        let mut slot: i64 = (tick_index as i64 - first) / spacing;
        proof {
            arith::lemma_div_mod(tick_index - first, spacing as int);
            lemma_between_ticks(self@, slot as int);
            lemma_last_initialized_skips(
                self@,
                tick_index as int,
                first + slot * spacing,
                start as int,
            );
        }
        let mut index: i64 = first + slot * spacing;
        while index >= start as i64
            invariant_except_break
                self@.last_initialized(tick_index as int, start as int)
                    == self@.last_initialized(index as int, start as int),
            invariant
                self@.well_formed(),
                start == self@.start_index(),
                start <= tick_index <= self@.end_index(),
                first == self@.first(),
                spacing == self@.spacing,
                slot >= 0,
                index == first + slot * spacing,
                index <= tick_index,
            ensures
                self@.last_initialized(tick_index as int, start as int) is None,
            decreases slot,
        {
            proof {
                lemma_slot(self@, index as int);
                lemma_at_tick(self@, slot as int);
            }
            let tick = self.tick(slot as usize);
            if tick.initialized {
                return Ok((Some(tick), index as i32));
            }
            if slot == 0 {
                assert(slot * spacing == 0) by (nonlinear_arith)
                    requires
                        slot == 0,
                ;
                assert(self@.last_initialized(index - 1, start as int) is None);
                break;
            }
            proof {
                lemma_between_ticks(self@, slot - 1);
                assert(first + (slot - 1) * spacing == index - spacing) by (nonlinear_arith)
                    requires
                        index == first + slot * spacing,
                ;
                lemma_last_initialized_skips(
                    self@,
                    index as int,
                    index - spacing,
                    start as int,
                );
            }
            slot = slot - 1;
            index = index - spacing;
        }
        Ok((None, start))
    }

    /// The first initialized tick above `tick_index`, or the end of the arrays.
    pub fn next_initialized_tick(&self, tick_index: i32) -> (r: Result<
        (Option<TickFacade>, i32),
        CoreError,
    >)
        requires
            self@.well_formed(),
        ensures
            r == self@.next(tick_index as int),
    {
        let start: i32 = self.start_index();
        let end: i32 = self.end_index();
        if (tick_index as i64) < start as i64 - self.tick_spacing as i64 || tick_index >= end {
            return Err(CoreError::InvalidTickArraySequence);
        }
        let first: i64 = self.tick_arrays[0].start_tick_index as i64;
        let spacing: i64 = self.tick_spacing as i64;
        let mut slot: i64 = if (tick_index as i64) < first {
            0
        } else {
            (tick_index as i64 - first) / spacing + 1
        };
        proof {
            if tick_index >= first {
                arith::lemma_div_mod(tick_index - first, spacing as int);
                lemma_between_ticks(self@, slot - 1);
                assert(first + (slot - 1) * spacing + spacing == first + slot * spacing)
                    by (nonlinear_arith);
            } else {
                assert(0 * spacing == 0) by (nonlinear_arith);
            }
            lemma_first_initialized_skips(
                self@,
                tick_index + 1,
                first + slot * spacing,
                end as int,
            );
        }
        let mut index: i64 = first + slot * spacing;
        while index <= end as i64
            invariant
                self@.well_formed(),
                start == self@.start_index(),
                end == self@.end_index(),
                start - self@.spacing <= tick_index < end,
                first == self@.first(),
                spacing == self@.spacing,
                slot >= 0,
                index == first + slot * spacing,
                tick_index < index,
                self@.first_initialized(tick_index + 1, end as int) == self@.first_initialized(
                    index as int,
                    end as int,
                ),
            decreases end - index + spacing,
        {
            proof {
                lemma_at_tick(self@, slot as int);
            }
            if index >= start as i64 {
                proof {
                    lemma_slot(self@, index as int);
                }
                let tick = self.tick(slot as usize);
                if tick.initialized {
                    return Ok((Some(tick), index as i32));
                }
            }
            proof {
                lemma_between_ticks(self@, slot as int);
                assert(first + (slot + 1) * spacing == index + spacing) by (nonlinear_arith)
                    requires
                        index == first + slot * spacing,
                ;
                lemma_first_initialized_skips(self@, index as int, index + spacing, end as int);
            }
            slot = slot + 1;
            index = index + spacing;
        }
        Ok((None, end))
    }
}

} // verus!
