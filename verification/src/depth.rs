//! L3 market-by-order depth: per-order state, aggregated quantity per price
//! tick, and cached best bid/ask ticks.
//!
//! Prices are held as integer ticks (price divided by the tick size) and
//! quantities as integer lots (quantity divided by the lot size); the float
//! conversions live outside the library. Each side's aggregated depth is a
//! ladder of levels sorted by tick; empty levels are never retained.

use vstd::prelude::*;

verus! {

/// Sentinel tick meaning "no bid".
pub const INVALID_MIN: i32 = i32::MIN;

/// Sentinel tick meaning "no ask".
pub const INVALID_MAX: i32 = i32::MAX;

/// Side code for buy, as returned by `modify_order`.
pub const BUY: i64 = 1;

/// Side code for sell, as returned by `modify_order`.
pub const SELL: i64 = -1;

#[derive(Clone, Copy, Debug, PartialEq, Eq, Structural)]
pub enum Side {
    Buy,
    Sell,
}

/// A resting order: uniquely keyed by `order_id`; `qty` is in lots.
#[derive(Clone, Copy, Debug, PartialEq, Eq, Structural)]
pub struct MarketOrder {
    pub order_id: i64,
    pub side: Side,
    pub price_tick: i32,
    pub qty: i64,
}

#[derive(Clone, Copy, Debug, PartialEq, Eq, Structural)]
pub enum BookError {
    /// An order with the same id is already in the book.
    OrderIdExist,
    /// No order with the given id is in the book.
    OrderNotFound,
}

pub open spec fn order_matches(o: MarketOrder, side: Side, tick: int) -> bool {
    o.side == side && o.price_tick as int == tick
}

/// Total quantity of the orders on `side` resting at `tick`.
pub open spec fn qty_sum(s: Seq<MarketOrder>, side: Side, tick: int) -> int
    decreases s.len(),
{
    if s.len() == 0 {
        0
    } else {
        qty_sum(s.drop_last(), side, tick) + if order_matches(s.last(), side, tick) {
            s.last().qty as int
        } else {
            0
        }
    }
}

/// Number of orders on `side` resting at `tick`.
pub open spec fn order_count(s: Seq<MarketOrder>, side: Side, tick: int) -> int
    decreases s.len(),
{
    if s.len() == 0 {
        0
    } else {
        order_count(s.drop_last(), side, tick) + if order_matches(s.last(), side, tick) {
            1int
        } else {
            0
        }
    }
}

pub open spec fn has_order_id(s: Seq<MarketOrder>, id: int) -> bool {
    exists|i: int| 0 <= i < s.len() && s[i].order_id as int == id
}

/// Index of the order with the given id, or -1 when absent.
pub open spec fn order_index(s: Seq<MarketOrder>, id: int) -> int
    decreases s.len(),
{
    if s.len() == 0 {
        -1
    } else if s[0].order_id as int == id {
        0
    } else if order_index(s.drop_first(), id) < 0 {
        -1
    } else {
        order_index(s.drop_first(), id) + 1
    }
}

pub open spec fn unique_ids(s: Seq<MarketOrder>) -> bool {
    forall|i: int, j: int| 0 <= i < j < s.len() ==> s[i].order_id != s[j].order_id
}

/// An order the book can hold: positive size, tick strictly inside the
/// sentinel bounds.
pub open spec fn valid_order(o: MarketOrder) -> bool {
    &&& o.qty > 0
    &&& INVALID_MIN < o.price_tick < INVALID_MAX
}

pub open spec fn sorted_ticks(s: Seq<(i32, i64)>) -> bool {
    forall|i: int, j: int| 0 <= i < j < s.len() ==> s[i].0 < s[j].0
}

pub open spec fn has_tick(s: Seq<(i32, i64)>, tick: int) -> bool {
    exists|i: int| 0 <= i < s.len() && s[i].0 as int == tick
}

/// Aggregated quantity at `tick`; 0 when the level is absent.
pub open spec fn level_qty(s: Seq<(i32, i64)>, tick: int) -> int {
    if has_tick(s, tick) {
        s[choose|i: int| 0 <= i < s.len() && s[i].0 as int == tick].1 as int
    } else {
        0
    }
}

/// Greatest tick in the ladder, or `INVALID_MIN` when empty.
pub open spec fn max_tick_of(s: Seq<(i32, i64)>) -> int {
    if s.len() == 0 {
        INVALID_MIN as int
    } else {
        s.last().0 as int
    }
}

/// Least tick in the ladder, or `INVALID_MAX` when empty.
pub open spec fn min_tick_of(s: Seq<(i32, i64)>) -> int {
    if s.len() == 0 {
        INVALID_MAX as int
    } else {
        s[0].0 as int
    }
}

/// One side's aggregated depth: levels sorted by tick, one entry per tick.
pub struct DepthLadder {
    levels: Vec<(i32, i64)>,
}

impl View for DepthLadder {
    type V = Seq<(i32, i64)>;

    closed spec fn view(&self) -> Seq<(i32, i64)> {
        self.levels@
    }
}

pub proof fn lemma_level_qty_at_index(s: Seq<(i32, i64)>, i: int)
    requires
        sorted_ticks(s),
        0 <= i < s.len(),
    ensures
        level_qty(s, s[i].0 as int) == s[i].1 as int,
{
    let t = s[i].0 as int;
    assert(has_tick(s, t));
    let j = choose|j: int| 0 <= j < s.len() && s[j].0 as int == t;
    if i < j {
        assert(s[i].0 < s[j].0);
    }
    if j < i {
        assert(s[j].0 < s[i].0);
    }
}

/// In a sorted ladder the last tick bounds every tick, so the greatest
/// tick is `max_tick_of` and the least is `min_tick_of`.
pub proof fn lemma_tick_bounds(s: Seq<(i32, i64)>)
    requires
        sorted_ticks(s),
    ensures
        forall|t: int| has_tick(s, t) ==> min_tick_of(s) <= t <= max_tick_of(s),
        s.len() > 0 ==> has_tick(s, max_tick_of(s)) && has_tick(s, min_tick_of(s)),
{
    assert forall|t: int| has_tick(s, t) implies min_tick_of(s) <= t <= max_tick_of(s) by {
        let i = choose|i: int| 0 <= i < s.len() && s[i].0 as int == t;
        if i < s.len() - 1 {
            assert(s[i].0 < s[s.len() - 1].0);
        }
        if i > 0 {
            assert(s[0].0 < s[i].0);
        }
    }
    if s.len() > 0 {
        assert(s[s.len() - 1].0 as int == max_tick_of(s));
        assert(s[0].0 as int == min_tick_of(s));
    }
}

impl DepthLadder {
    pub fn new() -> (r: Self)
        ensures
            r@ =~= Seq::<(i32, i64)>::empty(),
    {
        DepthLadder { levels: Vec::new() }
    }

    pub fn len(&self) -> (r: usize)
        ensures
            r == self@.len(),
    {
        self.levels.len()
    }

    /// The level at position `i`, in ascending tick order.
    pub fn level_at(&self, i: usize) -> (r: (i32, i64))
        requires
            i < self@.len(),
        ensures
            r == self@[i as int],
    {
        self.levels[i]
    }

    /// Aggregated quantity at `tick`; 0 when no such level exists.
    pub fn qty_at(&self, tick: i32) -> (r: i64)
        requires
            sorted_ticks(self@),
        ensures
            r as int == level_qty(self@, tick as int),
    {
        let n = self.levels.len();
        let mut i: usize = 0;
        while i < n
            invariant
                sorted_ticks(self@),
                n == self@.len(),
                0 <= i <= n,
                forall|k: int| 0 <= k < i ==> self@[k].0 != tick,
            decreases n - i,
        {
            if self.levels[i].0 == tick {
                proof {
                    lemma_level_qty_at_index(self@, i as int);
                }
                return self.levels[i].1;
            }
            i += 1;
        }
        assert(!has_tick(self@, tick as int));
        0
    }

    /// Greatest tick, or `INVALID_MIN` when the side is empty.
    pub fn max_tick(&self) -> (r: i32)
        ensures
            r as int == max_tick_of(self@),
    {
        let n = self.levels.len();
        if n == 0 {
            INVALID_MIN
        } else {
            self.levels[n - 1].0
        }
    }

    /// Least tick, or `INVALID_MAX` when the side is empty.
    pub fn min_tick(&self) -> (r: i32)
        ensures
            r as int == min_tick_of(self@),
    {
        if self.levels.len() == 0 {
            INVALID_MAX
        } else {
            self.levels[0].0
        }
    }

    pub fn clear(&mut self)
        ensures
            final(self)@ =~= Seq::<(i32, i64)>::empty(),
    {
        self.levels.clear();
    }

    /// Adds `qty` to the level at `tick`, creating the level when absent.
    pub fn add_qty(&mut self, tick: i32, qty: i64)
        requires
            sorted_ticks(old(self)@),
            i64::MIN <= level_qty(old(self)@, tick as int) + qty <= i64::MAX,
        ensures
            sorted_ticks(final(self)@),
            forall|t: int|
                #[trigger] has_tick(final(self)@, t) == (has_tick(old(self)@, t) || t
                    == tick as int),
            level_qty(final(self)@, tick as int) == level_qty(old(self)@, tick as int) + qty,
            forall|t: int|
                t != tick as int ==> #[trigger] level_qty(final(self)@, t) == level_qty(
                    old(self)@,
                    t,
                ),
    {
        let ghost s0 = self@;
        let n = self.levels.len();
        let mut pos: usize = 0;
        while pos < n && self.levels[pos].0 < tick
            invariant
                n == self@.len(),
                0 <= pos <= n,
                self@ == s0,
                forall|k: int| 0 <= k < pos ==> self@[k].0 < tick,
            decreases n - pos,
        {
            pos += 1;
        }
        if pos < n && self.levels[pos].0 == tick {
            // Existing level: fold the quantity in.
            proof {
                lemma_level_qty_at_index(s0, pos as int);
            }
            let old_level = self.levels.remove(pos);
            self.levels.insert(pos, (tick, old_level.1 + qty));
            proof {
                let s2 = self@;
                s0.remove_ensures(pos as int);
                s0.remove(pos as int).insert_ensures(pos as int, (tick, (old_level.1 + qty) as i64));
                assert(s2 =~= s0.update(pos as int, (tick, (old_level.1 + qty) as i64)));
                assert forall|t: int| #[trigger] has_tick(s2, t) == (has_tick(s0, t) || t
                    == tick as int) by {
                    if has_tick(s2, t) {
                        let i = choose|i: int| 0 <= i < s2.len() && s2[i].0 as int == t;
                        assert(s0[i].0 as int == t || t == tick as int);
                    }
                    if has_tick(s0, t) {
                        let i = choose|i: int| 0 <= i < s0.len() && s0[i].0 as int == t;
                        assert(s2[i].0 as int == t);
                    }
                    if t == tick as int {
                        assert(s2[pos as int].0 as int == t);
                    }
                }
                assert(sorted_ticks(s2));
                lemma_level_qty_at_index(s2, pos as int);
                assert forall|t: int| t != tick as int implies #[trigger] level_qty(s2, t)
                    == level_qty(s0, t) by {
                    if has_tick(s0, t) {
                        let i = choose|i: int| 0 <= i < s0.len() && s0[i].0 as int == t;
                        assert(s2[i].0 as int == t);
                        lemma_level_qty_at_index(s0, i);
                        lemma_level_qty_at_index(s2, i);
                    }
                }
            }
        } else {
            // New level: every present tick differs from `tick`.
            assert(forall|k: int| 0 <= k < s0.len() ==> s0[k].0 != tick) by {
                assert(forall|k: int|
                    pos <= k < s0.len() ==> s0[pos as int].0 <= #[trigger] s0[k].0);
            }
            assert(!has_tick(s0, tick as int));
            self.levels.insert(pos, (tick, qty));
            proof {
                let s2 = self@;
                s0.insert_ensures(pos as int, (tick, qty));
                assert forall|i: int, j: int| 0 <= i < j < s2.len() implies s2[i].0 < s2[j].0 by {
                    if i < pos && j == pos {
                        assert(s2[i] == s0[i]);
                    } else if i == pos && j > pos {
                        assert(s2[j] == s0[j - 1]);
                        assert(s0[pos as int].0 <= s0[j - 1].0);
                        assert(s0[j - 1].0 != tick);
                    } else if j < pos {
                        assert(s2[i] == s0[i] && s2[j] == s0[j]);
                    } else if i > pos {
                        assert(s2[i] == s0[i - 1] && s2[j] == s0[j - 1]);
                    } else if i < pos && j > pos {
                        assert(s2[i] == s0[i] && s2[j] == s0[j - 1]);
                        assert(s0[i].0 < s0[j - 1].0 || i == j - 1);
                        assert(s0[j - 1].0 != tick);
                        assert(s0[pos as int].0 <= s0[j - 1].0);
                    }
                }
                assert forall|t: int| #[trigger] has_tick(s2, t) == (has_tick(s0, t) || t
                    == tick as int) by {
                    if has_tick(s2, t) {
                        let i = choose|i: int| 0 <= i < s2.len() && s2[i].0 as int == t;
                        if i < pos {
                            assert(s0[i].0 as int == t);
                        } else if i > pos {
                            assert(s0[i - 1].0 as int == t);
                        }
                    }
                    if has_tick(s0, t) {
                        let i = choose|i: int| 0 <= i < s0.len() && s0[i].0 as int == t;
                        if i < pos {
                            assert(s2[i].0 as int == t);
                        } else {
                            assert(s2[i + 1].0 as int == t);
                        }
                    }
                    if t == tick as int {
                        assert(s2[pos as int].0 as int == t);
                    }
                }
                lemma_level_qty_at_index(s2, pos as int);
                assert forall|t: int| t != tick as int implies #[trigger] level_qty(s2, t)
                    == level_qty(s0, t) by {
                    if has_tick(s0, t) {
                        let i = choose|i: int| 0 <= i < s0.len() && s0[i].0 as int == t;
                        lemma_level_qty_at_index(s0, i);
                        if i < pos {
                            assert(s2[i].0 as int == t);
                            lemma_level_qty_at_index(s2, i);
                        } else {
                            assert(s2[i + 1].0 as int == t);
                            lemma_level_qty_at_index(s2, i + 1);
                        }
                    }
                }
            }
        }
    }

    /// Subtracts `qty` from the level at `tick`; when the remaining quantity
    /// is zero the level is removed, so empty levels are never retained.
    pub fn sub_qty(&mut self, tick: i32, qty: i64)
        requires
            sorted_ticks(old(self)@),
            has_tick(old(self)@, tick as int),
            i64::MIN <= level_qty(old(self)@, tick as int) - qty <= i64::MAX,
        ensures
            sorted_ticks(final(self)@),
            forall|t: int|
                #[trigger] has_tick(final(self)@, t) == (has_tick(old(self)@, t) && !(t
                    == tick as int && level_qty(old(self)@, tick as int) == qty)),
            level_qty(final(self)@, tick as int) == level_qty(old(self)@, tick as int) - qty,
            forall|t: int|
                t != tick as int ==> #[trigger] level_qty(final(self)@, t) == level_qty(
                    old(self)@,
                    t,
                ),
    {
        let ghost s0 = self@;
        let n = self.levels.len();
        let mut pos: usize = 0;
        while pos < n && self.levels[pos].0 != tick
            invariant
                n == self@.len(),
                0 <= pos <= n,
                self@ == s0,
                has_tick(s0, tick as int),
                forall|k: int| 0 <= k < pos ==> s0[k].0 != tick,
            decreases n - pos,
        {
            pos += 1;
        }
        assert(pos < n);
        proof {
            lemma_level_qty_at_index(s0, pos as int);
        }
        let old_level = self.levels.remove(pos);
        proof {
            s0.remove_ensures(pos as int);
        }
        if old_level.1 - qty != 0 {
            self.levels.insert(pos, (tick, old_level.1 - qty));
            proof {
                let s2 = self@;
                s0.remove(pos as int).insert_ensures(pos as int, (tick, (old_level.1 - qty) as i64));
                assert(s2 =~= s0.update(pos as int, (tick, (old_level.1 - qty) as i64)));
                assert forall|t: int| #[trigger] has_tick(s2, t) == has_tick(s0, t) by {
                    if has_tick(s2, t) {
                        let i = choose|i: int| 0 <= i < s2.len() && s2[i].0 as int == t;
                        assert(s0[i].0 as int == t || t == tick as int);
                        assert(s0[pos as int].0 as int == tick as int);
                    }
                    if has_tick(s0, t) {
                        let i = choose|i: int| 0 <= i < s0.len() && s0[i].0 as int == t;
                        assert(s2[i].0 as int == t);
                    }
                }
                assert(sorted_ticks(s2));
                lemma_level_qty_at_index(s2, pos as int);
                assert forall|t: int| t != tick as int implies #[trigger] level_qty(s2, t)
                    == level_qty(s0, t) by {
                    if has_tick(s0, t) {
                        let i = choose|i: int| 0 <= i < s0.len() && s0[i].0 as int == t;
                        assert(s2[i].0 as int == t);
                        lemma_level_qty_at_index(s0, i);
                        lemma_level_qty_at_index(s2, i);
                    }
                }
            }
        } else {
            proof {
                let s2 = self@;
                assert forall|i: int, j: int| 0 <= i < j < s2.len() implies s2[i].0 < s2[j].0 by {
                    if j < pos {
                        assert(s2[i] == s0[i] && s2[j] == s0[j]);
                    } else if i < pos && j >= pos {
                        assert(s2[i] == s0[i] && s2[j] == s0[j + 1]);
                    } else {
                        assert(s2[i] == s0[i + 1] && s2[j] == s0[j + 1]);
                    }
                }
                assert forall|t: int| #[trigger] has_tick(s2, t) == (has_tick(s0, t) && t
                    != tick as int) by {
                    if has_tick(s2, t) {
                        let i = choose|i: int| 0 <= i < s2.len() && s2[i].0 as int == t;
                        if i < pos {
                            assert(s0[i].0 as int == t);
                            assert(s0[i].0 < s0[pos as int].0);
                        } else {
                            assert(s0[i + 1].0 as int == t);
                            assert(s0[pos as int].0 < s0[i + 1].0);
                        }
                    }
                    if has_tick(s0, t) && t != tick as int {
                        let i = choose|i: int| 0 <= i < s0.len() && s0[i].0 as int == t;
                        assert(i != pos);
                        if i < pos {
                            assert(s2[i].0 as int == t);
                        } else {
                            assert(s2[i - 1].0 as int == t);
                        }
                    }
                }
                assert(!has_tick(s2, tick as int));
                assert forall|t: int| t != tick as int implies #[trigger] level_qty(s2, t)
                    == level_qty(s0, t) by {
                    if has_tick(s0, t) {
                        let i = choose|i: int| 0 <= i < s0.len() && s0[i].0 as int == t;
                        lemma_level_qty_at_index(s0, i);
                        if i < pos {
                            assert(s2[i].0 as int == t);
                            lemma_level_qty_at_index(s2, i);
                        } else {
                            assert(i > pos);
                            assert(s2[i - 1].0 as int == t);
                            lemma_level_qty_at_index(s2, i - 1);
                        }
                    }
                }
            }
        }
    }
}

pub open spec fn order_contrib_qty(o: MarketOrder, side: Side, tick: int) -> int {
    if order_matches(o, side, tick) {
        o.qty as int
    } else {
        0
    }
}

pub open spec fn order_contrib_count(o: MarketOrder, side: Side, tick: int) -> int {
    if order_matches(o, side, tick) {
        1
    } else {
        0
    }
}

pub proof fn lemma_counts_push(s: Seq<MarketOrder>, o: MarketOrder, side: Side, tick: int)
    ensures
        qty_sum(s.push(o), side, tick) == qty_sum(s, side, tick) + order_contrib_qty(
            o,
            side,
            tick,
        ),
        order_count(s.push(o), side, tick) == order_count(s, side, tick) + order_contrib_count(
            o,
            side,
            tick,
        ),
{
    assert(s.push(o).drop_last() =~= s);
}

pub proof fn lemma_counts_remove(s: Seq<MarketOrder>, i: int, side: Side, tick: int)
    requires
        0 <= i < s.len(),
    ensures
        qty_sum(s.remove(i), side, tick) == qty_sum(s, side, tick) - order_contrib_qty(
            s[i],
            side,
            tick,
        ),
        order_count(s.remove(i), side, tick) == order_count(s, side, tick) - order_contrib_count(
            s[i],
            side,
            tick,
        ),
    decreases s.len(),
{
    s.remove_ensures(i);
    if i == s.len() - 1 {
        assert(s.remove(i) =~= s.drop_last());
    } else {
        assert(s.remove(i).drop_last() =~= s.drop_last().remove(i));
        assert(s.remove(i).last() == s.last());
        lemma_counts_remove(s.drop_last(), i, side, tick);
    }
}

pub proof fn lemma_counts_update(s: Seq<MarketOrder>, i: int, o: MarketOrder, side: Side, tick: int)
    requires
        0 <= i < s.len(),
    ensures
        qty_sum(s.update(i, o), side, tick) == qty_sum(s, side, tick) - order_contrib_qty(
            s[i],
            side,
            tick,
        ) + order_contrib_qty(o, side, tick),
        order_count(s.update(i, o), side, tick) == order_count(s, side, tick)
            - order_contrib_count(s[i], side, tick) + order_contrib_count(o, side, tick),
    decreases s.len(),
{
    if i == s.len() - 1 {
        assert(s.update(i, o).drop_last() =~= s.drop_last());
        assert(s.update(i, o).last() == o);
    } else {
        assert(s.update(i, o).drop_last() =~= s.drop_last().update(i, o));
        assert(s.update(i, o).last() == s.last());
        lemma_counts_update(s.drop_last(), i, o, side, tick);
    }
}

/// With positive order sizes, a level's total is positive exactly when some
/// order rests there.
pub proof fn lemma_counts_sign(s: Seq<MarketOrder>, side: Side, tick: int)
    requires
        forall|k: int| 0 <= k < s.len() ==> #[trigger] s[k].qty > 0,
    ensures
        order_count(s, side, tick) >= 0,
        qty_sum(s, side, tick) >= 0,
        (order_count(s, side, tick) == 0) <==> (qty_sum(s, side, tick) == 0),
    decreases s.len(),
{
    if s.len() > 0 {
        assert(forall|k: int|
            0 <= k < s.drop_last().len() ==> #[trigger] s.drop_last()[k].qty > 0) by {
            assert(forall|k: int|
                0 <= k < s.drop_last().len() ==> s.drop_last()[k] == s[k]);
        }
        lemma_counts_sign(s.drop_last(), side, tick);
    }
}

/// Every resting order is counted in, and bounded by, its level's totals.
pub proof fn lemma_member_counts(s: Seq<MarketOrder>, i: int, side: Side, tick: int)
    requires
        forall|k: int| 0 <= k < s.len() ==> #[trigger] s[k].qty > 0,
        0 <= i < s.len(),
        order_matches(s[i], side, tick),
    ensures
        order_count(s, side, tick) >= 1,
        qty_sum(s, side, tick) >= s[i].qty,
    decreases s.len(),
{
    lemma_counts_sign(s, side, tick);
    if i == s.len() - 1 {
        lemma_counts_sign(s.drop_last(), side, tick);
    } else {
        assert(forall|k: int|
            0 <= k < s.drop_last().len() ==> s.drop_last()[k] == s[k]);
        lemma_member_counts(s.drop_last(), i, side, tick);
    }
}

pub proof fn lemma_order_index_first(s: Seq<MarketOrder>, id: int, i: int)
    requires
        0 <= i < s.len(),
        s[i].order_id as int == id,
        forall|k: int| 0 <= k < i ==> s[k].order_id as int != id,
    ensures
        order_index(s, id) == i,
    decreases s.len(),
{
    if i == 0 {
    } else {
        assert(forall|k: int|
            0 <= k < s.drop_first().len() ==> s.drop_first()[k] == s[k + 1]);
        lemma_order_index_first(s.drop_first(), id, i - 1);
    }
}

pub proof fn lemma_order_index_absent(s: Seq<MarketOrder>, id: int)
    requires
        !has_order_id(s, id),
    ensures
        order_index(s, id) == -1,
    decreases s.len(),
{
    if s.len() > 0 {
        assert(s[0].order_id as int != id);
        assert(!has_order_id(s.drop_first(), id)) by {
            assert(forall|k: int|
                0 <= k < s.drop_first().len() ==> s.drop_first()[k] == s[k + 1]);
        }
        lemma_order_index_absent(s.drop_first(), id);
    }
}

/// Adding the tick `tick` to a ladder's tick set moves the greatest tick to
/// `max(old greatest, tick)`.
pub proof fn lemma_max_after_add(s1: Seq<(i32, i64)>, s2: Seq<(i32, i64)>, tick: int)
    requires
        sorted_ticks(s1),
        sorted_ticks(s2),
        INVALID_MIN < tick,
        forall|t: int| #[trigger] has_tick(s2, t) == (has_tick(s1, t) || t == tick),
    ensures
        max_tick_of(s2) == if tick > max_tick_of(s1) {
            tick
        } else {
            max_tick_of(s1)
        },
{
    lemma_tick_bounds(s1);
    lemma_tick_bounds(s2);
    assert(has_tick(s2, tick));
    assert(s2.len() > 0);
    assert(has_tick(s2, max_tick_of(s2)));
    if s1.len() > 0 {
        assert(has_tick(s2, max_tick_of(s1)));
    }
}

/// Adding the tick `tick` to a ladder's tick set moves the least tick to
/// `min(old least, tick)`.
pub proof fn lemma_min_after_add(s1: Seq<(i32, i64)>, s2: Seq<(i32, i64)>, tick: int)
    requires
        sorted_ticks(s1),
        sorted_ticks(s2),
        tick < INVALID_MAX,
        forall|t: int| #[trigger] has_tick(s2, t) == (has_tick(s1, t) || t == tick),
    ensures
        min_tick_of(s2) == if tick < min_tick_of(s1) {
            tick
        } else {
            min_tick_of(s1)
        },
{
    lemma_tick_bounds(s1);
    lemma_tick_bounds(s2);
    assert(has_tick(s2, tick));
    assert(s2.len() > 0);
    assert(has_tick(s2, min_tick_of(s2)));
    if s1.len() > 0 {
        assert(has_tick(s2, min_tick_of(s1)));
    }
}

/// The orders that do not rest on `cleared`, in their original sequence.
pub open spec fn orders_not_on(s: Seq<MarketOrder>, cleared: Side) -> Seq<MarketOrder>
    decreases s.len(),
{
    if s.len() == 0 {
        Seq::empty()
    } else if s.last().side == cleared {
        orders_not_on(s.drop_last(), cleared)
    } else {
        orders_not_on(s.drop_last(), cleared).push(s.last())
    }
}

pub proof fn lemma_not_on_counts(s: Seq<MarketOrder>, cleared: Side, side: Side, tick: int)
    ensures
        side == cleared ==> order_count(orders_not_on(s, cleared), side, tick) == 0 && qty_sum(
            orders_not_on(s, cleared),
            side,
            tick,
        ) == 0,
        side != cleared ==> order_count(orders_not_on(s, cleared), side, tick) == order_count(
            s,
            side,
            tick,
        ) && qty_sum(orders_not_on(s, cleared), side, tick) == qty_sum(s, side, tick),
    decreases s.len(),
{
    if s.len() > 0 {
        lemma_not_on_counts(s.drop_last(), cleared, side, tick);
        if s.last().side != cleared {
            lemma_counts_push(orders_not_on(s.drop_last(), cleared), s.last(), side, tick);
        }
    }
}

pub proof fn lemma_not_on_wf(s: Seq<MarketOrder>, cleared: Side)
    requires
        unique_ids(s),
        forall|k: int| 0 <= k < s.len() ==> valid_order(#[trigger] s[k]),
    ensures
        unique_ids(orders_not_on(s, cleared)),
        forall|k: int|
            0 <= k < orders_not_on(s, cleared).len() ==> valid_order(
                #[trigger] orders_not_on(s, cleared)[k],
            ),
        forall|id: int|
            #[trigger] has_order_id(orders_not_on(s, cleared), id) ==> has_order_id(s, id),
    decreases s.len(),
{
    if s.len() > 0 {
        let s0 = s.drop_last();
        let o = s.last();
        let r0 = orders_not_on(s0, cleared);
        let r = orders_not_on(s, cleared);
        assert(forall|k: int| 0 <= k < s0.len() ==> s0[k] == s[k]);
        lemma_not_on_wf(s0, cleared);
        if o.side == cleared {
            assert(r == r0);
        } else {
            assert(r == r0.push(o));
        }
        assert forall|id: int| #[trigger] has_order_id(r, id) implies has_order_id(s, id) by {
            if o.side == cleared {
                assert(has_order_id(s0, id));
                let w = choose|w: int| 0 <= w < s0.len() && s0[w].order_id as int == id;
                assert(s[w].order_id as int == id);
            } else {
                let w = choose|w: int| 0 <= w < r.len() && r[w].order_id as int == id;
                if w < r0.len() {
                    assert(r0[w].order_id as int == id);
                    assert(has_order_id(r0, id));
                    assert(has_order_id(s0, id));
                    let v = choose|v: int| 0 <= v < s0.len() && s0[v].order_id as int == id;
                    assert(s[v].order_id as int == id);
                } else {
                    assert(r[w] == o);
                    assert(s[s.len() - 1].order_id as int == id);
                }
            }
        }
        if o.side != cleared {
            assert(unique_ids(r)) by {
                assert forall|i: int, j: int| 0 <= i < j < r.len() implies r[i].order_id
                    != r[j].order_id by {
                    if j < r0.len() {
                        assert(r[i] == r0[i] && r[j] == r0[j]);
                    } else {
                        assert(r[j] == o);
                        assert(r[i] == r0[i]);
                        if r0[i].order_id == o.order_id {
                            assert(has_order_id(r0, o.order_id as int));
                            assert(has_order_id(s0, o.order_id as int));
                            let v = choose|v: int|
                                0 <= v < s0.len() && s0[v].order_id as int
                                    == o.order_id as int;
                            assert(s[v].order_id == s[s.len() - 1].order_id);
                        }
                    }
                }
            }
            assert forall|k: int| 0 <= k < r.len() implies valid_order(#[trigger] r[k]) by {
                if k < r0.len() {
                    assert(r[k] == r0[k]);
                } else {
                    assert(r[k] == o);
                    assert(valid_order(s[s.len() - 1]));
                }
            }
        }
    }
}

/// One side's books are consistent: the ladder is sorted, each level's
/// quantity is the sum of the orders resting at its tick, and a level is
/// present exactly when some order rests there.
pub open spec fn side_wf(levels: Seq<(i32, i64)>, orders: Seq<MarketOrder>, side: Side) -> bool {
    &&& sorted_ticks(levels)
    &&& forall|t: int| #[trigger] level_qty(levels, t) == qty_sum(orders, side, t)
    &&& forall|t: int| #[trigger] has_tick(levels, t) <==> order_count(orders, side, t) > 0
}

/// The L3 order book: per-order state, per-side aggregated depth, and
/// cached best ticks. `timestamp` is accepted by the mutators but unused,
/// reserved for last-update bookkeeping.
pub struct L3MBOMarketDepth {
    pub timestamp: i64,
    pub bid_depth: DepthLadder,
    pub ask_depth: DepthLadder,
    pub orders: Vec<MarketOrder>,
    pub best_bid_tick: i32,
    pub best_ask_tick: i32,
}

impl L3MBOMarketDepth {
    /// Order and depth state are mutually consistent; says nothing of the
    /// cached best ticks (see `wf`).
    pub open spec fn depth_wf(&self) -> bool {
        &&& unique_ids(self.orders@)
        &&& forall|k: int| 0 <= k < self.orders@.len() ==> valid_order(#[trigger] self.orders@[k])
        &&& side_wf(self.bid_depth@, self.orders@, Side::Buy)
        &&& side_wf(self.ask_depth@, self.orders@, Side::Sell)
    }

    /// Full well-formedness: depth consistency plus the best-tick caches,
    /// `best_bid_tick == max(keys(bid_depth))` (`INVALID_MIN` when empty)
    /// and `best_ask_tick == min(keys(ask_depth))` (`INVALID_MAX` when
    /// empty).
    pub open spec fn wf(&self) -> bool {
        &&& self.depth_wf()
        &&& self.best_bid_tick as int == max_tick_of(self.bid_depth@)
        &&& self.best_ask_tick as int == min_tick_of(self.ask_depth@)
    }

    pub fn new() -> (r: Self)
        ensures
            r.wf(),
            r.orders@ =~= Seq::<MarketOrder>::empty(),
            r.bid_depth@ =~= Seq::<(i32, i64)>::empty(),
            r.ask_depth@ =~= Seq::<(i32, i64)>::empty(),
            r.best_bid_tick == INVALID_MIN,
            r.best_ask_tick == INVALID_MAX,
    {
        L3MBOMarketDepth {
            timestamp: 0,
            bid_depth: DepthLadder::new(),
            ask_depth: DepthLadder::new(),
            orders: Vec::new(),
            best_bid_tick: INVALID_MIN,
            best_ask_tick: INVALID_MAX,
        }
    }

    fn find_order(&self, order_id: i64) -> (r: Option<usize>)
        ensures
            match r {
                Some(i) => i < self.orders@.len() && self.orders@[i as int].order_id == order_id
                    && i as int == order_index(self.orders@, order_id as int),
                None => !has_order_id(self.orders@, order_id as int) && order_index(
                    self.orders@,
                    order_id as int,
                ) == -1,
            },
    {
        let n = self.orders.len();
        let mut i: usize = 0;
        while i < n
            invariant
                n == self.orders@.len(),
                0 <= i <= n,
                forall|k: int| 0 <= k < i ==> self.orders@[k].order_id != order_id,
            decreases n - i,
        {
            if self.orders[i].order_id == order_id {
                proof {
                    lemma_order_index_first(self.orders@, order_id as int, i as int);
                }
                return Some(i);
            }
            i += 1;
        }
        proof {
            lemma_order_index_absent(self.orders@, order_id as int);
        }
        None
    }

    /// Aggregates the order into its side's depth and records it; fails
    /// with `OrderIdExist`, changing nothing, when the id is already
    /// present. The cached best ticks are left to the caller.
    pub fn add(&mut self, order: MarketOrder) -> (r: Result<(), BookError>)
        requires
            old(self).depth_wf(),
            valid_order(order),
            qty_sum(old(self).orders@, order.side, order.price_tick as int) + order.qty
                <= i64::MAX,
        ensures
            final(self).depth_wf(),
            (r is Err) == has_order_id(old(self).orders@, order.order_id as int),
            r is Err ==> r == Result::<(), BookError>::Err(BookError::OrderIdExist) && *final(self)
                == *old(self),
            r is Ok ==> final(self).orders@ == old(self).orders@.push(order),
            final(self).best_bid_tick == old(self).best_bid_tick,
            final(self).best_ask_tick == old(self).best_ask_tick,
            final(self).timestamp == old(self).timestamp,
            order.side == Side::Buy ==> final(self).ask_depth@ == old(self).ask_depth@,
            order.side == Side::Sell ==> final(self).bid_depth@ == old(self).bid_depth@,
            r is Ok && order.side == Side::Buy ==> forall|t: int|
                #[trigger] has_tick(final(self).bid_depth@, t) == (has_tick(
                    old(self).bid_depth@,
                    t,
                ) || t == order.price_tick as int),
            r is Ok && order.side == Side::Sell ==> forall|t: int|
                #[trigger] has_tick(final(self).ask_depth@, t) == (has_tick(
                    old(self).ask_depth@,
                    t,
                ) || t == order.price_tick as int),
    {
        if self.find_order(order.order_id).is_some() {
            return Err(BookError::OrderIdExist);
        }
        let ghost s1 = self.orders@;
        let ghost tick = order.price_tick as int;
        proof {
            lemma_counts_sign(s1, order.side, tick);
        }
        if order.side == Side::Buy {
            self.bid_depth.add_qty(order.price_tick, order.qty);
        } else {
            self.ask_depth.add_qty(order.price_tick, order.qty);
        }
        self.orders.push(order);
        proof {
            let s2 = self.orders@;
            assert(s2 == s1.push(order));
            assert forall|k: int| 0 <= k < s2.len() implies valid_order(#[trigger] s2[k]) by {
                if k < s1.len() {
                    assert(s2[k] == s1[k]);
                }
            }
            assert(unique_ids(s2)) by {
                assert forall|i: int, j: int| 0 <= i < j < s2.len() implies s2[i].order_id
                    != s2[j].order_id by {
                    if j < s1.len() {
                        assert(s2[i] == s1[i] && s2[j] == s1[j]);
                    } else {
                        assert(s2[j] == order && s2[i] == s1[i]);
                        assert(!(s1[i].order_id as int == order.order_id as int));
                    }
                }
            }
            assert forall|t: int|
                #![trigger qty_sum(s2, Side::Buy, t)]
                #![trigger order_count(s2, Side::Buy, t)]
                qty_sum(s2, Side::Buy, t) == qty_sum(s1, Side::Buy, t) + order_contrib_qty(
                    order,
                    Side::Buy,
                    t,
                ) && order_count(s2, Side::Buy, t) == order_count(s1, Side::Buy, t)
                    + order_contrib_count(order, Side::Buy, t) && order_count(s1, Side::Buy, t)
                    >= 0 by {
                lemma_counts_push(s1, order, Side::Buy, t);
                lemma_counts_sign(s1, Side::Buy, t);
            }
            assert forall|t: int|
                #![trigger qty_sum(s2, Side::Sell, t)]
                #![trigger order_count(s2, Side::Sell, t)]
                qty_sum(s2, Side::Sell, t) == qty_sum(s1, Side::Sell, t) + order_contrib_qty(
                    order,
                    Side::Sell,
                    t,
                ) && order_count(s2, Side::Sell, t) == order_count(s1, Side::Sell, t)
                    + order_contrib_count(order, Side::Sell, t) && order_count(s1, Side::Sell, t)
                    >= 0 by {
                lemma_counts_push(s1, order, Side::Sell, t);
                lemma_counts_sign(s1, Side::Sell, t);
            }
            assert(side_wf(self.bid_depth@, s2, Side::Buy));
            assert(side_wf(self.ask_depth@, s2, Side::Sell));
        }
        Ok(())
    }

    /// Adds a buy order at `price_tick` and refreshes the cached best bid
    /// when the new tick improves it. Returns the best bid tick before and
    /// after; fails with `OrderIdExist`, changing nothing, when the id is
    /// already present.
    pub fn add_buy_order(
        &mut self,
        order_id: i64,
        price_tick: i32,
        qty: i64,
        timestamp: i64,
    ) -> (r: Result<(i32, i32), BookError>)
        requires
            old(self).wf(),
            qty > 0,
            INVALID_MIN < price_tick < INVALID_MAX,
            qty_sum(old(self).orders@, Side::Buy, price_tick as int) + qty <= i64::MAX,
        ensures
            final(self).wf(),
            final(self).timestamp == old(self).timestamp,
            final(self).ask_depth@ == old(self).ask_depth@,
            final(self).best_ask_tick == old(self).best_ask_tick,
            (r is Err) == has_order_id(old(self).orders@, order_id as int),
            r is Err ==> r == Result::<(i32, i32), BookError>::Err(BookError::OrderIdExist)
                && *final(self) == *old(self),
            r is Ok ==> final(self).orders@ == old(self).orders@.push(
                MarketOrder { order_id, side: Side::Buy, price_tick, qty },
            ),
            r is Ok ==> r == Result::<(i32, i32), BookError>::Ok(
                (old(self).best_bid_tick, final(self).best_bid_tick),
            ),
            r is Ok ==> final(self).best_bid_tick as int == if price_tick > old(
                self,
            ).best_bid_tick {
                price_tick as int
            } else {
                old(self).best_bid_tick as int
            },
    {
        let order = MarketOrder { order_id, side: Side::Buy, price_tick, qty };
        match self.add(order) {
            Err(e) => {
                return Err(e);
            },
            Ok(()) => {},
        }
        proof {
            lemma_max_after_add(old(self).bid_depth@, self.bid_depth@, price_tick as int);
        }
        let prev_best_tick = self.best_bid_tick;
        if price_tick > self.best_bid_tick {
            self.best_bid_tick = self.bid_depth.max_tick();
        }
        Ok((prev_best_tick, self.best_bid_tick))
    }

    /// Adds a sell order at `price_tick` and refreshes the cached best ask
    /// when the new tick improves it. Returns the best ask tick before and
    /// after; fails with `OrderIdExist`, changing nothing, when the id is
    /// already present.
    pub fn add_sell_order(
        &mut self,
        order_id: i64,
        price_tick: i32,
        qty: i64,
        timestamp: i64,
    ) -> (r: Result<(i32, i32), BookError>)
        requires
            old(self).wf(),
            qty > 0,
            INVALID_MIN < price_tick < INVALID_MAX,
            qty_sum(old(self).orders@, Side::Sell, price_tick as int) + qty <= i64::MAX,
        ensures
            final(self).wf(),
            final(self).timestamp == old(self).timestamp,
            final(self).bid_depth@ == old(self).bid_depth@,
            final(self).best_bid_tick == old(self).best_bid_tick,
            (r is Err) == has_order_id(old(self).orders@, order_id as int),
            r is Err ==> r == Result::<(i32, i32), BookError>::Err(BookError::OrderIdExist)
                && *final(self) == *old(self),
            r is Ok ==> final(self).orders@ == old(self).orders@.push(
                MarketOrder { order_id, side: Side::Sell, price_tick, qty },
            ),
            r is Ok ==> r == Result::<(i32, i32), BookError>::Ok(
                (old(self).best_ask_tick, final(self).best_ask_tick),
            ),
            r is Ok ==> final(self).best_ask_tick as int == if price_tick < old(
                self,
            ).best_ask_tick {
                price_tick as int
            } else {
                old(self).best_ask_tick as int
            },
    {
        let order = MarketOrder { order_id, side: Side::Sell, price_tick, qty };
        match self.add(order) {
            Err(e) => {
                return Err(e);
            },
            Ok(()) => {},
        }
        proof {
            lemma_min_after_add(old(self).ask_depth@, self.ask_depth@, price_tick as int);
        }
        let prev_best_tick = self.best_ask_tick;
        if price_tick < self.best_ask_tick {
            self.best_ask_tick = self.ask_depth.min_tick();
        }
        Ok((prev_best_tick, self.best_ask_tick))
    }

    /// Removes the order, subtracts its quantity from its level, and drops
    /// the level when it empties; fails with `OrderNotFound`, changing
    /// nothing, when the id is absent. The cached best tick of the touched
    /// side is refreshed from the ladder, so the best-tick invariant holds
    /// even when the removed level was the best.
    pub fn delete_order(&mut self, order_id: i64, timestamp: i64) -> (r: Result<(), BookError>)
        requires
            old(self).wf(),
        ensures
            final(self).wf(),
            final(self).timestamp == old(self).timestamp,
            (r is Ok) == has_order_id(old(self).orders@, order_id as int),
            r is Err ==> r == Result::<(), BookError>::Err(BookError::OrderNotFound) && *final(self)
                == *old(self),
            r is Ok ==> final(self).orders@ == old(self).orders@.remove(
                order_index(old(self).orders@, order_id as int),
            ),
            r is Ok && old(self).orders@[order_index(old(self).orders@, order_id as int)].side
                == Side::Buy ==> final(self).ask_depth@ == old(self).ask_depth@
                && final(self).best_ask_tick == old(self).best_ask_tick,
            r is Ok && old(self).orders@[order_index(old(self).orders@, order_id as int)].side
                == Side::Sell ==> final(self).bid_depth@ == old(self).bid_depth@
                && final(self).best_bid_tick == old(self).best_bid_tick,
    {
        let idx = match self.find_order(order_id) {
            None => {
                return Err(BookError::OrderNotFound);
            },
            Some(i) => i,
        };
        let order = self.orders[idx];
        let ghost s1 = self.orders@;
        let ghost tick = order.price_tick as int;
        self.orders.remove(idx);
        let ghost s2 = self.orders@;
        proof {
            s1.remove_ensures(idx as int);
            assert(s2 == s1.remove(idx as int));
            assert forall|k: int| 0 <= k < s2.len() implies valid_order(#[trigger] s2[k]) by {
                if k < idx {
                    assert(s2[k] == s1[k]);
                } else {
                    assert(s2[k] == s1[k + 1]);
                }
            }
            assert(unique_ids(s2)) by {
                assert forall|i: int, j: int| 0 <= i < j < s2.len() implies s2[i].order_id
                    != s2[j].order_id by {
                    let i1: int = if i < idx {
                        i
                    } else {
                        i + 1
                    };
                    let j1: int = if j < idx {
                        j
                    } else {
                        j + 1
                    };
                    assert(s2[i] == s1[i1] && s2[j] == s1[j1]);
                }
            }
            assert forall|t: int|
                #![trigger qty_sum(s2, Side::Buy, t)]
                #![trigger order_count(s2, Side::Buy, t)]
                qty_sum(s2, Side::Buy, t) == qty_sum(s1, Side::Buy, t) - order_contrib_qty(
                    order,
                    Side::Buy,
                    t,
                ) && order_count(s2, Side::Buy, t) == order_count(s1, Side::Buy, t)
                    - order_contrib_count(order, Side::Buy, t) && order_count(s2, Side::Buy, t) >= 0
                    && ((order_count(s2, Side::Buy, t) == 0) <==> (qty_sum(s2, Side::Buy, t)
                    == 0)) by {
                lemma_counts_remove(s1, idx as int, Side::Buy, t);
                lemma_counts_sign(s2, Side::Buy, t);
            }
            assert forall|t: int|
                #![trigger qty_sum(s2, Side::Sell, t)]
                #![trigger order_count(s2, Side::Sell, t)]
                qty_sum(s2, Side::Sell, t) == qty_sum(s1, Side::Sell, t) - order_contrib_qty(
                    order,
                    Side::Sell,
                    t,
                ) && order_count(s2, Side::Sell, t) == order_count(s1, Side::Sell, t)
                    - order_contrib_count(order, Side::Sell, t) && order_count(s2, Side::Sell, t)
                    >= 0 && ((order_count(s2, Side::Sell, t) == 0) <==> (qty_sum(s2, Side::Sell, t)
                    == 0)) by {
                lemma_counts_remove(s1, idx as int, Side::Sell, t);
                lemma_counts_sign(s2, Side::Sell, t);
            }
        }
        if order.side == Side::Buy {
            proof {
                lemma_member_counts(s1, idx as int, Side::Buy, tick);
            }
            self.bid_depth.sub_qty(order.price_tick, order.qty);
            self.best_bid_tick = self.bid_depth.max_tick();
            proof {
                assert(side_wf(self.bid_depth@, s2, Side::Buy));
                assert(side_wf(self.ask_depth@, s2, Side::Sell));
            }
        } else {
            proof {
                lemma_member_counts(s1, idx as int, Side::Sell, tick);
            }
            self.ask_depth.sub_qty(order.price_tick, order.qty);
            self.best_ask_tick = self.ask_depth.min_tick();
            proof {
                assert(side_wf(self.bid_depth@, s2, Side::Buy));
                assert(side_wf(self.ask_depth@, s2, Side::Sell));
            }
        }
        Ok(())
    }

    /// Reprices or resizes the order. At an unchanged tick the level is
    /// adjusted by the size difference; at a new tick the old level loses
    /// the old quantity (and is dropped when it empties) and the new level
    /// gains the new one, and the side's cached best tick is refreshed from
    /// the ladder. Returns the side code (`BUY` or `SELL`) with the side's
    /// best tick before and after; fails with `OrderNotFound`, changing
    /// nothing, when the id is absent.
    pub fn modify_order(
        &mut self,
        order_id: i64,
        price_tick: i32,
        qty: i64,
        timestamp: i64,
    ) -> (r: Result<(i64, i32, i32), BookError>)
        requires
            old(self).wf(),
            qty > 0,
            INVALID_MIN < price_tick < INVALID_MAX,
            qty_sum(old(self).orders@, Side::Buy, price_tick as int) + qty <= i64::MAX,
            qty_sum(old(self).orders@, Side::Sell, price_tick as int) + qty <= i64::MAX,
        ensures
            final(self).wf(),
            final(self).timestamp == old(self).timestamp,
            (r is Ok) == has_order_id(old(self).orders@, order_id as int),
            r is Err ==> r == Result::<(i64, i32, i32), BookError>::Err(BookError::OrderNotFound)
                && *final(self) == *old(self),
            r is Ok ==> final(self).orders@ == old(self).orders@.update(
                order_index(old(self).orders@, order_id as int),
                MarketOrder {
                    order_id,
                    side: old(self).orders@[order_index(old(self).orders@, order_id as int)].side,
                    price_tick,
                    qty,
                },
            ),
            r is Ok && old(self).orders@[order_index(old(self).orders@, order_id as int)].side
                == Side::Buy ==> final(self).ask_depth@ == old(self).ask_depth@
                && final(self).best_ask_tick == old(self).best_ask_tick && r == Result::<
                (i64, i32, i32),
                BookError,
            >::Ok((BUY, old(self).best_bid_tick, final(self).best_bid_tick)),
            r is Ok && old(self).orders@[order_index(old(self).orders@, order_id as int)].side
                == Side::Sell ==> final(self).bid_depth@ == old(self).bid_depth@
                && final(self).best_bid_tick == old(self).best_bid_tick && r == Result::<
                (i64, i32, i32),
                BookError,
            >::Ok((SELL, old(self).best_ask_tick, final(self).best_ask_tick)),
    {
        let idx = match self.find_order(order_id) {
            None => {
                return Err(BookError::OrderNotFound);
            },
            Some(i) => i,
        };
        let order = self.orders[idx];
        let new_order = MarketOrder { order_id, side: order.side, price_tick, qty };
        let ghost s1 = self.orders@;
        let ghost old_tick = order.price_tick as int;
        let ghost new_tick = price_tick as int;
        self.orders.remove(idx);
        self.orders.insert(idx, new_order);
        let ghost s2 = self.orders@;
        proof {
            s1.remove_ensures(idx as int);
            s1.remove(idx as int).insert_ensures(idx as int, new_order);
            assert(s2 =~= s1.update(idx as int, new_order));
            assert forall|k: int| 0 <= k < s2.len() implies valid_order(#[trigger] s2[k]) by {
                if k != idx {
                    assert(s2[k] == s1[k]);
                }
            }
            assert(unique_ids(s2)) by {
                assert forall|i: int, j: int| 0 <= i < j < s2.len() implies s2[i].order_id
                    != s2[j].order_id by {
                    assert(s2[i].order_id == s1[i].order_id && s2[j].order_id == s1[j].order_id);
                }
            }
            assert forall|t: int|
                #![trigger qty_sum(s2, Side::Buy, t)]
                #![trigger order_count(s2, Side::Buy, t)]
                qty_sum(s2, Side::Buy, t) == qty_sum(s1, Side::Buy, t) - order_contrib_qty(
                    order,
                    Side::Buy,
                    t,
                ) + order_contrib_qty(new_order, Side::Buy, t) && order_count(s2, Side::Buy, t)
                    == order_count(s1, Side::Buy, t) - order_contrib_count(order, Side::Buy, t)
                    + order_contrib_count(new_order, Side::Buy, t) && order_count(s1, Side::Buy, t)
                    >= 0 && order_count(s2, Side::Buy, t) >= 0 && ((order_count(s2, Side::Buy, t)
                    == 0) <==> (qty_sum(s2, Side::Buy, t) == 0)) by {
                lemma_counts_update(s1, idx as int, new_order, Side::Buy, t);
                lemma_counts_sign(s1, Side::Buy, t);
                lemma_counts_sign(s2, Side::Buy, t);
            }
            assert forall|t: int|
                #![trigger qty_sum(s2, Side::Sell, t)]
                #![trigger order_count(s2, Side::Sell, t)]
                qty_sum(s2, Side::Sell, t) == qty_sum(s1, Side::Sell, t) - order_contrib_qty(
                    order,
                    Side::Sell,
                    t,
                ) + order_contrib_qty(new_order, Side::Sell, t) && order_count(s2, Side::Sell, t)
                    == order_count(s1, Side::Sell, t) - order_contrib_count(order, Side::Sell, t)
                    + order_contrib_count(new_order, Side::Sell, t) && order_count(
                    s1,
                    Side::Sell,
                    t,
                ) >= 0 && order_count(s2, Side::Sell, t) >= 0 && ((order_count(s2, Side::Sell, t)
                    == 0) <==> (qty_sum(s2, Side::Sell, t) == 0)) by {
                lemma_counts_update(s1, idx as int, new_order, Side::Sell, t);
                lemma_counts_sign(s1, Side::Sell, t);
                lemma_counts_sign(s2, Side::Sell, t);
            }
        }
        if order.side == Side::Buy {
            proof {
                lemma_member_counts(s1, idx as int, Side::Buy, old_tick);
            }
            if price_tick != order.price_tick {
                self.bid_depth.sub_qty(order.price_tick, order.qty);
                self.bid_depth.add_qty(price_tick, qty);
                let prev_best_tick = self.best_bid_tick;
                self.best_bid_tick = self.bid_depth.max_tick();
                proof {
                    assert(side_wf(self.bid_depth@, s2, Side::Buy));
                    assert(side_wf(self.ask_depth@, s2, Side::Sell));
                }
                Ok((BUY, prev_best_tick, self.best_bid_tick))
            } else {
                self.bid_depth.add_qty(price_tick, qty - order.qty);
                proof {
                    assert(has_tick(old(self).bid_depth@, new_tick));
                    assert forall|t: int| #[trigger] has_tick(self.bid_depth@, t) == (has_tick(
                        old(self).bid_depth@,
                        t,
                    ) || t == new_tick) by {}
                    lemma_max_after_add(old(self).bid_depth@, self.bid_depth@, new_tick);
                    lemma_tick_bounds(old(self).bid_depth@);
                    assert(side_wf(self.bid_depth@, s2, Side::Buy));
                    assert(side_wf(self.ask_depth@, s2, Side::Sell));
                }
                Ok((BUY, self.best_bid_tick, self.best_bid_tick))
            }
        } else {
            proof {
                lemma_member_counts(s1, idx as int, Side::Sell, old_tick);
            }
            if price_tick != order.price_tick {
                self.ask_depth.sub_qty(order.price_tick, order.qty);
                self.ask_depth.add_qty(price_tick, qty);
                let prev_best_tick = self.best_ask_tick;
                self.best_ask_tick = self.ask_depth.min_tick();
                proof {
                    assert(side_wf(self.bid_depth@, s2, Side::Buy));
                    assert(side_wf(self.ask_depth@, s2, Side::Sell));
                }
                Ok((SELL, prev_best_tick, self.best_ask_tick))
            } else {
                self.ask_depth.add_qty(price_tick, qty - order.qty);
                proof {
                    assert(has_tick(old(self).ask_depth@, new_tick));
                    assert forall|t: int| #[trigger] has_tick(self.ask_depth@, t) == (has_tick(
                        old(self).ask_depth@,
                        t,
                    ) || t == new_tick) by {}
                    lemma_min_after_add(old(self).ask_depth@, self.ask_depth@, new_tick);
                    lemma_tick_bounds(old(self).ask_depth@);
                    assert(side_wf(self.bid_depth@, s2, Side::Buy));
                    assert(side_wf(self.ask_depth@, s2, Side::Sell));
                }
                Ok((SELL, self.best_ask_tick, self.best_ask_tick))
            }
        }
    }

    /// Clears every level on the given side (`BUY` clears bids, anything
    /// else clears asks) together with that side's orders, and resets the
    /// side's cached best tick. `clear_upto_price` is reserved for a
    /// partial clear and is ignored: the entire side is cleared.
    pub fn clear_depth(&mut self, side: i64, clear_upto_price: i64)
        requires
            old(self).wf(),
        ensures
            final(self).wf(),
            final(self).timestamp == old(self).timestamp,
            side == BUY ==> final(self).bid_depth@ =~= Seq::<(i32, i64)>::empty()
                && final(self).orders@ == orders_not_on(old(self).orders@, Side::Buy)
                && final(self).best_bid_tick == INVALID_MIN && final(self).ask_depth@ == old(
                self,
            ).ask_depth@ && final(self).best_ask_tick == old(self).best_ask_tick,
            side != BUY ==> final(self).ask_depth@ =~= Seq::<(i32, i64)>::empty()
                && final(self).orders@ == orders_not_on(old(self).orders@, Side::Sell)
                && final(self).best_ask_tick == INVALID_MAX && final(self).bid_depth@ == old(
                self,
            ).bid_depth@ && final(self).best_bid_tick == old(self).best_bid_tick,
    {
        let cleared = if side == BUY {
            Side::Buy
        } else {
            Side::Sell
        };
        let ghost s1 = self.orders@;
        let n = self.orders.len();
        let mut kept: Vec<MarketOrder> = Vec::new();
        let mut i: usize = 0;
        while i < n
            invariant
                n == self.orders@.len(),
                0 <= i <= n,
                self.orders@ == s1,
                kept@ == orders_not_on(s1.take(i as int), cleared),
            decreases n - i,
        {
            proof {
                assert(s1.take(i as int + 1).drop_last() =~= s1.take(i as int));
                assert(s1.take(i as int + 1).last() == s1[i as int]);
            }
            let o = self.orders[i];
            if !(o.side == cleared) {
                kept.push(o);
            }
            i += 1;
        }
        proof {
            assert(s1.take(n as int) =~= s1);
        }
        self.orders = kept;
        let ghost s2 = self.orders@;
        proof {
            lemma_not_on_wf(s1, cleared);
            assert forall|t: int|
                #![trigger qty_sum(s2, Side::Buy, t)]
                #![trigger order_count(s2, Side::Buy, t)]
                (cleared == Side::Buy ==> qty_sum(s2, Side::Buy, t) == 0 && order_count(
                    s2,
                    Side::Buy,
                    t,
                ) == 0) && (cleared == Side::Sell ==> qty_sum(s2, Side::Buy, t) == qty_sum(
                    s1,
                    Side::Buy,
                    t,
                ) && order_count(s2, Side::Buy, t) == order_count(s1, Side::Buy, t)) by {
                lemma_not_on_counts(s1, cleared, Side::Buy, t);
            }
            assert forall|t: int|
                #![trigger qty_sum(s2, Side::Sell, t)]
                #![trigger order_count(s2, Side::Sell, t)]
                (cleared == Side::Sell ==> qty_sum(s2, Side::Sell, t) == 0 && order_count(
                    s2,
                    Side::Sell,
                    t,
                ) == 0) && (cleared == Side::Buy ==> qty_sum(s2, Side::Sell, t) == qty_sum(
                    s1,
                    Side::Sell,
                    t,
                ) && order_count(s2, Side::Sell, t) == order_count(s1, Side::Sell, t)) by {
                lemma_not_on_counts(s1, cleared, Side::Sell, t);
            }
        }
        if side == BUY {
            self.bid_depth.clear();
            self.best_bid_tick = INVALID_MIN;
            proof {
                assert(side_wf(self.bid_depth@, s2, Side::Buy));
                assert(side_wf(self.ask_depth@, s2, Side::Sell));
            }
        } else {
            self.ask_depth.clear();
            self.best_ask_tick = INVALID_MAX;
            proof {
                assert(side_wf(self.bid_depth@, s2, Side::Buy));
                assert(side_wf(self.ask_depth@, s2, Side::Sell));
            }
        }
    }

    /// The greatest bid tick in the ladder, `INVALID_MIN` when there is no
    /// bid.
    pub fn best_bid_tick(&self) -> (r: i32)
        ensures
            r as int == max_tick_of(self.bid_depth@),
    {
        self.bid_depth.max_tick()
    }

    /// The least ask tick in the ladder, `INVALID_MAX` when there is no
    /// ask.
    pub fn best_ask_tick(&self) -> (r: i32)
        ensures
            r as int == min_tick_of(self.ask_depth@),
    {
        self.ask_depth.min_tick()
    }

    /// Aggregated buy quantity resting at `price_tick`, 0 when the level is
    /// absent.
    pub fn bid_qty_at_tick(&self, price_tick: i32) -> (r: i64)
        requires
            sorted_ticks(self.bid_depth@),
        ensures
            r as int == level_qty(self.bid_depth@, price_tick as int),
    {
        self.bid_depth.qty_at(price_tick)
    }

    /// Aggregated sell quantity resting at `price_tick`, 0 when the level
    /// is absent.
    pub fn ask_qty_at_tick(&self, price_tick: i32) -> (r: i64)
        requires
            sorted_ticks(self.ask_depth@),
        ensures
            r as int == level_qty(self.ask_depth@, price_tick as int),
    {
        self.ask_depth.qty_at(price_tick)
    }
}

/// Law: the cached best bid tick is the greatest tick among the bid
/// levels, or `INVALID_MIN` when the bid side is empty.
pub proof fn lemma_best_bid_is_max(book: L3MBOMarketDepth)
    requires
        book.wf(),
    ensures
        book.bid_depth@.len() == 0 ==> book.best_bid_tick == INVALID_MIN,
        book.bid_depth@.len() > 0 ==> has_tick(book.bid_depth@, book.best_bid_tick as int),
        forall|t: int| #[trigger] has_tick(book.bid_depth@, t) ==> t <= book.best_bid_tick as int,
{
    lemma_tick_bounds(book.bid_depth@);
}

/// Law: the cached best ask tick is the least tick among the ask levels,
/// or `INVALID_MAX` when the ask side is empty.
pub proof fn lemma_best_ask_is_min(book: L3MBOMarketDepth)
    requires
        book.wf(),
    ensures
        book.ask_depth@.len() == 0 ==> book.best_ask_tick == INVALID_MAX,
        book.ask_depth@.len() > 0 ==> has_tick(book.ask_depth@, book.best_ask_tick as int),
        forall|t: int| #[trigger] has_tick(book.ask_depth@, t) ==> t >= book.best_ask_tick as int,
{
    lemma_tick_bounds(book.ask_depth@);
}

/// Number of orders on `side` contributing to each level of the ladder,
/// summed over the levels.
pub open spec fn level_order_counts(
    levels: Seq<(i32, i64)>,
    orders: Seq<MarketOrder>,
    side: Side,
) -> int
    decreases levels.len(),
{
    if levels.len() == 0 {
        0
    } else {
        level_order_counts(levels.drop_last(), orders, side) + order_count(
            orders,
            side,
            levels.last().0 as int,
        )
    }
}

pub proof fn lemma_level_counts_empty(levels: Seq<(i32, i64)>, side: Side)
    ensures
        level_order_counts(levels, Seq::<MarketOrder>::empty(), side) == 0,
    decreases levels.len(),
{
    if levels.len() > 0 {
        lemma_level_counts_empty(levels.drop_last(), side);
    }
}

pub proof fn lemma_level_counts_push(
    levels: Seq<(i32, i64)>,
    orders: Seq<MarketOrder>,
    side: Side,
    o: MarketOrder,
)
    requires
        sorted_ticks(levels),
    ensures
        level_order_counts(levels, orders.push(o), side) == level_order_counts(
            levels,
            orders,
            side,
        ) + if o.side == side && has_tick(levels, o.price_tick as int) {
            1int
        } else {
            0int
        },
    decreases levels.len(),
{
    if levels.len() > 0 {
        let l0 = levels.drop_last();
        let last_tick = levels.last().0 as int;
        assert(forall|k: int| 0 <= k < l0.len() ==> l0[k] == levels[k]);
        assert(sorted_ticks(l0));
        lemma_level_counts_push(l0, orders, side, o);
        lemma_counts_push(orders, o, side, last_tick);
        // A sorted ladder holds each tick at most once.
        if o.side == side {
            if last_tick == o.price_tick as int {
                assert(!has_tick(l0, o.price_tick as int)) by {
                    if has_tick(l0, o.price_tick as int) {
                        let w = choose|w: int|
                            0 <= w < l0.len() && l0[w].0 as int == o.price_tick as int;
                        assert(levels[w].0 < levels[levels.len() - 1].0);
                    }
                }
                assert(has_tick(levels, o.price_tick as int)) by {
                    assert(levels[levels.len() - 1].0 as int == o.price_tick as int);
                }
            } else {
                assert(has_tick(l0, o.price_tick as int) == has_tick(
                    levels,
                    o.price_tick as int,
                )) by {
                    if has_tick(levels, o.price_tick as int) {
                        let w = choose|w: int|
                            0 <= w < levels.len() && levels[w].0 as int == o.price_tick as int;
                        assert(w < levels.len() - 1);
                        assert(l0[w].0 as int == o.price_tick as int);
                    }
                    if has_tick(l0, o.price_tick as int) {
                        let w = choose|w: int|
                            0 <= w < l0.len() && l0[w].0 as int == o.price_tick as int;
                        assert(levels[w].0 as int == o.price_tick as int);
                    }
                }
            }
        }
    } else {
        lemma_counts_push(orders, o, side, 0);
    }
}

pub proof fn lemma_partition_rec(
    bid: Seq<(i32, i64)>,
    ask: Seq<(i32, i64)>,
    orders: Seq<MarketOrder>,
)
    requires
        sorted_ticks(bid),
        sorted_ticks(ask),
        forall|k: int|
            0 <= k < orders.len() ==> ((#[trigger] orders[k]).side == Side::Buy ==> has_tick(
                bid,
                orders[k].price_tick as int,
            )) && (orders[k].side == Side::Sell ==> has_tick(ask, orders[k].price_tick as int)),
    ensures
        level_order_counts(bid, orders, Side::Buy) + level_order_counts(ask, orders, Side::Sell)
            == orders.len(),
    decreases orders.len(),
{
    if orders.len() == 0 {
        assert(orders =~= Seq::<MarketOrder>::empty());
        lemma_level_counts_empty(bid, Side::Buy);
        lemma_level_counts_empty(ask, Side::Sell);
    } else {
        let s0 = orders.drop_last();
        let o = orders.last();
        assert(forall|k: int| 0 <= k < s0.len() ==> s0[k] == orders[k]);
        lemma_partition_rec(bid, ask, s0);
        assert(s0.push(o) =~= orders);
        lemma_level_counts_push(bid, s0, Side::Buy, o);
        lemma_level_counts_push(ask, s0, Side::Sell, o);
    }
}

/// Law: every order contributes to exactly one level of its side, so the
/// number of orders equals the contributing-order counts summed over all
/// levels of both sides.
pub proof fn lemma_orders_partition(book: L3MBOMarketDepth)
    requires
        book.depth_wf(),
    ensures
        level_order_counts(book.bid_depth@, book.orders@, Side::Buy) + level_order_counts(
            book.ask_depth@,
            book.orders@,
            Side::Sell,
        ) == book.orders@.len(),
{
    let orders = book.orders@;
    assert forall|k: int|
        0 <= k < orders.len() implies ((#[trigger] orders[k]).side == Side::Buy ==> has_tick(
        book.bid_depth@,
        orders[k].price_tick as int,
    )) && (orders[k].side == Side::Sell ==> has_tick(
        book.ask_depth@,
        orders[k].price_tick as int,
    )) by {
        if orders[k].side == Side::Buy {
            lemma_member_counts(orders, k, Side::Buy, orders[k].price_tick as int);
        } else {
            lemma_member_counts(orders, k, Side::Sell, orders[k].price_tick as int);
        }
    }
    lemma_partition_rec(book.bid_depth@, book.ask_depth@, orders);
}

/// Law: each bid level's quantity equals the summed quantity of the buy
/// orders resting at its tick, and absent levels carry no order quantity;
/// symmetric for asks.
pub proof fn lemma_depth_matches_orders(book: L3MBOMarketDepth, t: int)
    requires
        book.depth_wf(),
    ensures
        level_qty(book.bid_depth@, t) == qty_sum(book.orders@, Side::Buy, t),
        level_qty(book.ask_depth@, t) == qty_sum(book.orders@, Side::Sell, t),
        !has_tick(book.bid_depth@, t) ==> qty_sum(book.orders@, Side::Buy, t) == 0,
        !has_tick(book.ask_depth@, t) ==> qty_sum(book.orders@, Side::Sell, t) == 0,
{
    lemma_counts_sign(book.orders@, Side::Buy, t);
    lemma_counts_sign(book.orders@, Side::Sell, t);
}

/// Law: a book holding no orders holds no depth on either side.
pub proof fn lemma_no_orders_no_depth(book: L3MBOMarketDepth)
    requires
        book.depth_wf(),
        book.orders@.len() == 0,
    ensures
        book.bid_depth@ =~= Seq::<(i32, i64)>::empty(),
        book.ask_depth@ =~= Seq::<(i32, i64)>::empty(),
{
    if book.bid_depth@.len() > 0 {
        assert(has_tick(book.bid_depth@, book.bid_depth@[0].0 as int));
    }
    if book.ask_depth@.len() > 0 {
        assert(has_tick(book.ask_depth@, book.ask_depth@[0].0 as int));
    }
}

/// Two sorted ladders with the same levels are the same ladder.
pub proof fn lemma_ladder_determined(l1: Seq<(i32, i64)>, l2: Seq<(i32, i64)>)
    requires
        sorted_ticks(l1),
        sorted_ticks(l2),
        forall|t: int|
            #![trigger has_tick(l1, t)]
            #![trigger has_tick(l2, t)]
            has_tick(l1, t) == has_tick(l2, t),
        forall|t: int|
            #![trigger level_qty(l1, t)]
            #![trigger level_qty(l2, t)]
            level_qty(l1, t) == level_qty(l2, t),
    ensures
        l1 == l2,
    decreases l1.len(),
{
    if l1.len() == 0 && l2.len() == 0 {
        assert(l1 =~= l2);
    } else if l1.len() == 0 {
        assert(has_tick(l2, l2[0].0 as int));
        assert(false);
    } else if l2.len() == 0 {
        assert(has_tick(l1, l1[0].0 as int));
        assert(false);
    } else {
        lemma_tick_bounds(l1);
        lemma_tick_bounds(l2);
        let m1 = max_tick_of(l1);
        let m2 = max_tick_of(l2);
        assert(has_tick(l2, m1) && has_tick(l1, m2));
        assert(m1 == m2);
        lemma_level_qty_at_index(l1, l1.len() - 1);
        lemma_level_qty_at_index(l2, l2.len() - 1);
        assert(l1.last() == l2.last());
        let d1 = l1.drop_last();
        let d2 = l2.drop_last();
        assert(forall|k: int| 0 <= k < d1.len() ==> d1[k] == l1[k]);
        assert(forall|k: int| 0 <= k < d2.len() ==> d2[k] == l2[k]);
        assert forall|t: int| #[trigger] has_tick(d1, t) == (has_tick(l1, t) && t != m1) by {
            if has_tick(d1, t) {
                let w = choose|w: int| 0 <= w < d1.len() && d1[w].0 as int == t;
                assert(l1[w].0 as int == t);
                assert(l1[w].0 < l1[l1.len() - 1].0);
            }
            if has_tick(l1, t) && t != m1 {
                let w = choose|w: int| 0 <= w < l1.len() && l1[w].0 as int == t;
                assert(w != l1.len() - 1);
                assert(d1[w].0 as int == t);
            }
        }
        assert forall|t: int| #[trigger] has_tick(d2, t) == (has_tick(l2, t) && t != m1) by {
            if has_tick(d2, t) {
                let w = choose|w: int| 0 <= w < d2.len() && d2[w].0 as int == t;
                assert(l2[w].0 as int == t);
                assert(l2[w].0 < l2[l2.len() - 1].0);
            }
            if has_tick(l2, t) && t != m1 {
                let w = choose|w: int| 0 <= w < l2.len() && l2[w].0 as int == t;
                assert(w != l2.len() - 1);
                assert(d2[w].0 as int == t);
            }
        }
        assert forall|t: int| #[trigger] level_qty(d1, t) == level_qty(d2, t) by {
            if has_tick(d1, t) {
                let w = choose|w: int| 0 <= w < d1.len() && d1[w].0 as int == t;
                lemma_level_qty_at_index(d1, w);
                assert(l1[w].0 as int == t);
                lemma_level_qty_at_index(l1, w);
                assert(has_tick(d2, t));
                let v = choose|v: int| 0 <= v < d2.len() && d2[v].0 as int == t;
                lemma_level_qty_at_index(d2, v);
                assert(l2[v].0 as int == t);
                lemma_level_qty_at_index(l2, v);
            }
        }
        lemma_ladder_determined(d1, d2);
        assert(l1 =~= l2);
    }
}

/// Law: adding an order with a fresh id and then deleting it returns the
/// book to its prior state — orders, both depth sides, and both cached
/// best ticks. The hypotheses are exactly what `add_buy_order`,
/// `add_sell_order` and `delete_order` ensure about the two calls.
pub proof fn lemma_add_delete_round_trip(
    b0: L3MBOMarketDepth,
    b1: L3MBOMarketDepth,
    b2: L3MBOMarketDepth,
    order: MarketOrder,
)
    requires
        b0.wf(),
        b1.wf(),
        b2.wf(),
        !has_order_id(b0.orders@, order.order_id as int),
        b1.orders@ == b0.orders@.push(order),
        b2.orders@ == b1.orders@.remove(order_index(b1.orders@, order.order_id as int)),
    ensures
        b2.orders@ == b0.orders@,
        b2.bid_depth@ == b0.bid_depth@,
        b2.ask_depth@ == b0.ask_depth@,
        b2.best_bid_tick == b0.best_bid_tick,
        b2.best_ask_tick == b0.best_ask_tick,
{
    let id = order.order_id as int;
    let n0 = b0.orders@.len() as int;
    assert(b1.orders@[n0] == order);
    assert(forall|k: int| 0 <= k < n0 ==> b1.orders@[k] == b0.orders@[k]);
    lemma_order_index_first(b1.orders@, id, n0);
    assert(b2.orders@ =~= b0.orders@);
    assert forall|t: int| #[trigger] has_tick(b0.bid_depth@, t) == has_tick(b2.bid_depth@, t)
        && #[trigger] level_qty(b0.bid_depth@, t) == level_qty(b2.bid_depth@, t) by {
        assert(order_count(b0.orders@, Side::Buy, t) == order_count(b2.orders@, Side::Buy, t));
        assert(qty_sum(b0.orders@, Side::Buy, t) == qty_sum(b2.orders@, Side::Buy, t));
    }
    assert forall|t: int| #[trigger] has_tick(b0.ask_depth@, t) == has_tick(b2.ask_depth@, t)
        && #[trigger] level_qty(b0.ask_depth@, t) == level_qty(b2.ask_depth@, t) by {
        assert(order_count(b0.orders@, Side::Sell, t) == order_count(b2.orders@, Side::Sell, t));
        assert(qty_sum(b0.orders@, Side::Sell, t) == qty_sum(b2.orders@, Side::Sell, t));
    }
    lemma_ladder_determined(b0.bid_depth@, b2.bid_depth@);
    lemma_ladder_determined(b0.ask_depth@, b2.ask_depth@);
}

} // verus!
