//! Normalization of exchange depth and trade updates into feed events, the
//! per-symbol depth reconciliation state, and the decisions of the
//! WebSocket connect loop.
//!
//! Prices and quantities arrive as decimal strings and stay strings in the
//! normalized events; the float conversion lives outside the library.
//! Exchange timestamps arrive in milliseconds and are scaled to
//! nanoseconds.

use vstd::prelude::*;
use vstd::string::StrSliceExecFns;
use vstd::string::StringExecFns;

verus! {

/// Kind of a normalized feed event.
#[derive(Clone, Copy, Debug, PartialEq, Eq, Structural)]
pub enum FeedKind {
    BidDepth,
    AskDepth,
    BuyTrade,
    SellTrade,
}

/// A normalized feed event. `px` and `qty` carry the exchange's decimal
/// strings; `exch_ts` and `local_ts` are nanoseconds.
#[derive(Debug, PartialEq, Eq)]
pub struct FeedEvent {
    pub kind: FeedKind,
    pub symbol: String,
    pub exch_ts: i64,
    pub local_ts: i64,
    pub order_id: u64,
    pub px: String,
    pub qty: String,
    pub ival: i64,
}

/// One price level of a depth message: price and quantity as the exchange
/// sends them.
pub struct PxQty {
    pub px: String,
    pub qty: String,
}

/// An incremental depth message of the exchange stream.
pub struct DepthUpdate {
    pub symbol: String,
    pub transaction_time: i64,
    pub first_update_id: i64,
    pub last_update_id: i64,
    pub prev_update_id: i64,
    pub bids: Vec<PxQty>,
    pub asks: Vec<PxQty>,
}

/// A trade message of the exchange stream.
pub struct Trade {
    pub symbol: String,
    pub transaction_time: i64,
    pub price: String,
    pub qty: String,
    pub is_the_buyer_the_market_maker: bool,
}

/// A depth snapshot fetched over REST.
pub struct DepthSnapshot {
    pub last_update_id: i64,
    pub transaction_time: i64,
    pub bids: Vec<PxQty>,
    pub asks: Vec<PxQty>,
}

/// A malformed payload: such a message is skipped, never fatal.
#[derive(Clone, Copy, Debug, PartialEq, Eq, Structural)]
pub enum StreamError {
    Malformed,
}

pub open spec fn is_digit_char(c: char) -> bool {
    48 <= c as u32 <= 57
}

pub open spec fn dot_count(s: Seq<char>) -> int
    decreases s.len(),
{
    if s.len() == 0 {
        0
    } else {
        dot_count(s.drop_last()) + if s.last() == '.' {
            1int
        } else {
            0int
        }
    }
}

/// The price and quantity grammar of the feed: one or more characters,
/// each a digit or a point, at most one point, and not at either end.
pub open spec fn is_decimal_seq(s: Seq<char>) -> bool {
    &&& s.len() > 0
    &&& forall|i: int| 0 <= i < s.len() ==> is_digit_char(#[trigger] s[i]) || s[i] == '.'
    &&& dot_count(s) <= 1
    &&& s[0] != '.'
    &&& s[s.len() - 1] != '.'
}

/// Accepts exactly the decimal strings of `is_decimal_seq`.
pub fn is_decimal_str(s: &str) -> (r: bool)
    ensures
        r == is_decimal_seq(s@),
{
    let n = s.unicode_len();
    if n == 0 {
        return false;
    }
    let mut dots: usize = 0;
    let mut all_ok = true;
    let mut i: usize = 0;
    while i < n
        invariant
            n == s@.len(),
            0 <= i <= n,
            dots <= i,
            dots as int == dot_count(s@.take(i as int)),
            all_ok == forall|k: int| 0 <= k < i ==> is_digit_char(#[trigger] s@[k]) || s@[k] == '.',
        decreases n - i,
    {
        proof {
            assert(s@.take(i as int + 1).drop_last() =~= s@.take(i as int));
            assert(s@.take(i as int + 1).last() == s@[i as int]);
        }
        let c = s.get_char(i);
        if c == '.' {
            dots += 1;
        } else {
            let u = c as u32;
            if !(48 <= u && u <= 57) {
                all_ok = false;
            }
        }
        i += 1;
    }
    proof {
        assert(s@.take(n as int) =~= s@);
    }
    let first = s.get_char(0);
    let last = s.get_char(n - 1);
    all_ok && dots <= 1 && first != '.' && last != '.'
}

/// What `str::to_lowercase` returns: a function of the characters alone.
pub uninterp spec fn lower_of(s: Seq<char>) -> Seq<char>;

/// Relies on str::to_lowercase: the result depends on the characters
/// alone.
#[verifier::external_body]
fn to_lower(s: &str) -> (r: String)
    ensures
        r@ == lower_of(s@),
{
    s.to_lowercase()
}

/// The shape of a normalized event: its kind, symbol, timestamps and the
/// untouched price and quantity strings.
pub open spec fn event_matches(
    ev: FeedEvent,
    kind: FeedKind,
    symbol: Seq<char>,
    exch_ts: int,
    local_ts: int,
    px: Seq<char>,
    qty: Seq<char>,
) -> bool {
    &&& ev.kind == kind
    &&& ev.symbol@ == symbol
    &&& ev.exch_ts as int == exch_ts
    &&& ev.local_ts as int == local_ts
    &&& ev.order_id == 0
    &&& ev.px@ == px
    &&& ev.qty@ == qty
    &&& ev.ival == 0
}

pub open spec fn all_levels_decimal(levels: Seq<PxQty>) -> bool {
    forall|i: int|
        0 <= i < levels.len() ==> is_decimal_seq((#[trigger] levels[i]).px@) && is_decimal_seq(
            levels[i].qty@,
        )
}

/// Scale of exchange timestamps: milliseconds to nanoseconds.
pub const MS_TO_NS: i64 = 1_000_000;

fn levels_decimal(levels: &Vec<PxQty>) -> (r: bool)
    ensures
        r == all_levels_decimal(levels@),
{
    let n = levels.len();
    let mut i: usize = 0;
    while i < n
        invariant
            n == levels@.len(),
            0 <= i <= n,
            forall|k: int|
                0 <= k < i ==> is_decimal_seq((#[trigger] levels@[k]).px@) && is_decimal_seq(
                    levels@[k].qty@,
                ),
        decreases n - i,
    {
        if !is_decimal_str(levels[i].px.as_str()) || !is_decimal_str(levels[i].qty.as_str()) {
            return false;
        }
        i += 1;
    }
    true
}

/// Appends one event per level, in the levels' order.
fn push_level_events(
    evs: &mut Vec<FeedEvent>,
    kind: FeedKind,
    symbol: &String,
    exch_ts: i64,
    local_ts: i64,
    levels: &Vec<PxQty>,
)
    ensures
        final(evs)@.len() == old(evs)@.len() + levels@.len(),
        forall|k: int| 0 <= k < old(evs)@.len() ==> final(evs)@[k] == old(evs)@[k],
        forall|k: int|
            #![trigger final(evs)@[old(evs)@.len() + k]]
            #![trigger levels@[k]]
            0 <= k < levels@.len() ==> event_matches(
                final(evs)@[old(evs)@.len() + k],
                kind,
                symbol@,
                exch_ts as int,
                local_ts as int,
                levels@[k].px@,
                levels@[k].qty@,
            ),
{
    let n = levels.len();
    let mut i: usize = 0;
    while i < n
        invariant
            n == levels@.len(),
            0 <= i <= n,
            evs@.len() == old(evs)@.len() + i,
            forall|k: int| 0 <= k < old(evs)@.len() ==> evs@[k] == old(evs)@[k],
            forall|k: int|
                0 <= k < i ==> event_matches(
                    #[trigger] evs@[old(evs)@.len() + k],
                    kind,
                    symbol@,
                    exch_ts as int,
                    local_ts as int,
                    levels@[k].px@,
                    levels@[k].qty@,
                ),
        decreases n - i,
    {
        let level = &levels[i];
        evs.push(
            FeedEvent {
                kind,
                symbol: symbol.clone(),
                exch_ts,
                local_ts,
                order_id: 0,
                px: level.px.clone(),
                qty: level.qty.clone(),
                ival: 0,
            },
        );
        i += 1;
    }
}

/// Feed events of one incremental depth message: one bid-depth event per
/// bid level, then one ask-depth event per ask level, with the exchange
/// time scaled to nanoseconds, the caller's local time, and the symbol
/// folded to lower case. A malformed price or quantity anywhere fails the
/// whole message, emitting nothing.
pub fn depth_events(
    symbol: &str,
    transaction_time: i64,
    bids: &Vec<PxQty>,
    asks: &Vec<PxQty>,
    local_ts: i64,
) -> (r: Result<Vec<FeedEvent>, StreamError>)
    requires
        0 <= transaction_time,
        transaction_time as int * MS_TO_NS as int <= i64::MAX as int,
    ensures
        (r is Ok) == (all_levels_decimal(bids@) && all_levels_decimal(asks@)),
        r is Err ==> r == Result::<Vec<FeedEvent>, StreamError>::Err(StreamError::Malformed),
        r matches Ok(evs) ==> evs@.len() == bids@.len() + asks@.len() && (forall|i: int|
            0 <= i < bids@.len() ==> event_matches(
                #[trigger] evs@[i],
                FeedKind::BidDepth,
                lower_of(symbol@),
                transaction_time as int * MS_TO_NS as int,
                local_ts as int,
                bids@[i].px@,
                bids@[i].qty@,
            )) && (forall|i: int|
            0 <= i < asks@.len() ==> event_matches(
                #[trigger] evs@[bids@.len() + i],
                FeedKind::AskDepth,
                lower_of(symbol@),
                transaction_time as int * MS_TO_NS as int,
                local_ts as int,
                asks@[i].px@,
                asks@[i].qty@,
            )),
{
    if !levels_decimal(bids) || !levels_decimal(asks) {
        return Err(StreamError::Malformed);
    }
    let symbol_lower = to_lower(symbol);
    let exch_ts = transaction_time * MS_TO_NS;
    let mut evs: Vec<FeedEvent> = Vec::new();
    push_level_events(&mut evs, FeedKind::BidDepth, &symbol_lower, exch_ts, local_ts, bids);
    push_level_events(&mut evs, FeedKind::AskDepth, &symbol_lower, exch_ts, local_ts, asks);
    Ok(evs)
}

/// Feed events of a REST depth snapshot: as `depth_events`, with the
/// symbol taken as it stands (the fetch path already folded it).
pub fn snapshot_events(symbol: &String, snapshot: &DepthSnapshot, local_ts: i64) -> (r: Result<
    Vec<FeedEvent>,
    StreamError,
>)
    requires
        0 <= snapshot.transaction_time,
        snapshot.transaction_time as int * MS_TO_NS as int <= i64::MAX as int,
    ensures
        (r is Ok) == (all_levels_decimal(snapshot.bids@) && all_levels_decimal(snapshot.asks@)),
        r is Err ==> r == Result::<Vec<FeedEvent>, StreamError>::Err(StreamError::Malformed),
        r matches Ok(evs) ==> evs@.len() == snapshot.bids@.len() + snapshot.asks@.len() && (
        forall|i: int|
            0 <= i < snapshot.bids@.len() ==> event_matches(
                #[trigger] evs@[i],
                FeedKind::BidDepth,
                symbol@,
                snapshot.transaction_time as int * MS_TO_NS as int,
                local_ts as int,
                snapshot.bids@[i].px@,
                snapshot.bids@[i].qty@,
            )) && (forall|i: int|
            0 <= i < snapshot.asks@.len() ==> event_matches(
                #[trigger] evs@[snapshot.bids@.len() + i],
                FeedKind::AskDepth,
                symbol@,
                snapshot.transaction_time as int * MS_TO_NS as int,
                local_ts as int,
                snapshot.asks@[i].px@,
                snapshot.asks@[i].qty@,
            )),
{
    if !levels_decimal(&snapshot.bids) || !levels_decimal(&snapshot.asks) {
        return Err(StreamError::Malformed);
    }
    let exch_ts = snapshot.transaction_time * MS_TO_NS;
    let mut evs: Vec<FeedEvent> = Vec::new();
    push_level_events(&mut evs, FeedKind::BidDepth, symbol, exch_ts, local_ts, &snapshot.bids);
    push_level_events(&mut evs, FeedKind::AskDepth, symbol, exch_ts, local_ts, &snapshot.asks);
    Ok(evs)
}

/// The feed event of one trade message: the aggressor is a seller when the
/// buyer was the resting maker, else a buyer.
pub fn trade_event(trade: &Trade, local_ts: i64) -> (r: Result<FeedEvent, StreamError>)
    requires
        0 <= trade.transaction_time,
        trade.transaction_time as int * MS_TO_NS as int <= i64::MAX as int,
    ensures
        (r is Ok) == (is_decimal_seq(trade.price@) && is_decimal_seq(trade.qty@)),
        r is Err ==> r == Result::<FeedEvent, StreamError>::Err(StreamError::Malformed),
        r matches Ok(ev) ==> event_matches(
            ev,
            if trade.is_the_buyer_the_market_maker {
                FeedKind::SellTrade
            } else {
                FeedKind::BuyTrade
            },
            lower_of(trade.symbol@),
            trade.transaction_time as int * MS_TO_NS as int,
            local_ts as int,
            trade.price@,
            trade.qty@,
        ),
{
    if !is_decimal_str(trade.price.as_str()) || !is_decimal_str(trade.qty.as_str()) {
        return Err(StreamError::Malformed);
    }
    let kind = if trade.is_the_buyer_the_market_maker {
        FeedKind::SellTrade
    } else {
        FeedKind::BuyTrade
    };
    Ok(
        FeedEvent {
            kind,
            symbol: to_lower(trade.symbol.as_str()),
            exch_ts: trade.transaction_time * MS_TO_NS,
            local_ts,
            order_id: 0,
            px: trade.price.clone(),
            qty: trade.qty.clone(),
            ival: 0,
        },
    )
}

pub open spec fn has_symbol(s: Seq<(String, i64)>, sym: Seq<char>) -> bool {
    exists|i: int| 0 <= i < s.len() && s[i].0@ == sym
}

/// The recorded last update id of a symbol; 0 when none is recorded.
pub open spec fn last_update_of(s: Seq<(String, i64)>, sym: Seq<char>) -> i64 {
    if has_symbol(s, sym) {
        s[choose|i: int| 0 <= i < s.len() && s[i].0@ == sym].1
    } else {
        0
    }
}

pub open spec fn unique_symbols(s: Seq<(String, i64)>) -> bool {
    forall|i: int, j: int| 0 <= i < j < s.len() ==> s[i].0@ != s[j].0@
}

pub proof fn lemma_last_update_at_index(s: Seq<(String, i64)>, i: int)
    requires
        unique_symbols(s),
        0 <= i < s.len(),
    ensures
        last_update_of(s, s[i].0@) == s[i].1,
{
    assert(has_symbol(s, s[i].0@));
    let j = choose|j: int| 0 <= j < s.len() && s[j].0@ == s[i].0@;
    if i < j {
        assert(s[i].0@ != s[j].0@);
    }
    if j < i {
        assert(s[j].0@ != s[i].0@);
    }
}

/// Per-symbol depth reconciliation state: the last applied update id of
/// each symbol, keyed by the lowercase symbol.
pub struct MarketDataState {
    prev_u: Vec<(String, i64)>,
}

impl View for MarketDataState {
    type V = Seq<(String, i64)>;

    closed spec fn view(&self) -> Seq<(String, i64)> {
        self.prev_u@
    }
}

impl MarketDataState {
    pub open spec fn wf(&self) -> bool {
        unique_symbols(self@)
    }

    pub fn new() -> (r: Self)
        ensures
            r.wf(),
            r@ =~= Seq::<(String, i64)>::empty(),
    {
        MarketDataState { prev_u: Vec::new() }
    }

    fn find_symbol(&self, sym: &String) -> (r: Option<usize>)
        ensures
            match r {
                Some(i) => i < self@.len() && self@[i as int].0@ == sym@,
                None => !has_symbol(self@, sym@),
            },
    {
        let n = self.prev_u.len();
        let mut i: usize = 0;
        while i < n
            invariant
                n == self@.len(),
                0 <= i <= n,
                forall|k: int| 0 <= k < i ==> (#[trigger] self@[k]).0@ != sym@,
            decreases n - i,
        {
            if self.prev_u[i].0.eq(sym) {
                return Some(i);
            }
            i += 1;
        }
        None
    }

    /// Records `upd` as the symbol's last applied update id.
    fn set_last_update(&mut self, sym: String, upd: i64)
        requires
            old(self).wf(),
        ensures
            final(self).wf(),
            has_symbol(final(self)@, sym@),
            last_update_of(final(self)@, sym@) == upd,
            forall|t: Seq<char>|
                t != sym@ ==> #[trigger] has_symbol(final(self)@, t) == has_symbol(old(self)@, t),
            forall|t: Seq<char>|
                t != sym@ ==> #[trigger] last_update_of(final(self)@, t) == last_update_of(
                    old(self)@,
                    t,
                ),
    {
        let ghost s1 = self@;
        match self.find_symbol(&sym) {
            Some(i) => {
                self.prev_u.remove(i);
                self.prev_u.insert(i, (sym, upd));
                proof {
                    let s2 = self@;
                    s1.remove_ensures(i as int);
                    s1.remove(i as int).insert_ensures(i as int, (sym, upd));
                    assert(s2 =~= s1.update(i as int, (sym, upd)));
                    assert(forall|k: int| 0 <= k < s2.len() && k != i ==> s2[k] == s1[k]);
                    assert(unique_symbols(s2)) by {
                        assert forall|x: int, y: int| 0 <= x < y < s2.len() implies s2[x].0@
                            != s2[y].0@ by {
                            if x != i && y != i {
                                assert(s2[x] == s1[x] && s2[y] == s1[y]);
                            } else if x == i {
                                assert(s2[y] == s1[y] && s1[i as int].0@ == sym@);
                            } else {
                                assert(s2[x] == s1[x] && s1[i as int].0@ == sym@);
                            }
                        }
                    }
                    assert(s2[i as int].0@ == sym@);
                    lemma_last_update_at_index(s2, i as int);
                    assert forall|t: Seq<char>| t != sym@ implies #[trigger] has_symbol(s2, t)
                        == has_symbol(s1, t) by {
                        if has_symbol(s2, t) {
                            let w = choose|w: int| 0 <= w < s2.len() && s2[w].0@ == t;
                            assert(w != i);
                            assert(s1[w].0@ == t);
                        }
                        if has_symbol(s1, t) {
                            let w = choose|w: int| 0 <= w < s1.len() && s1[w].0@ == t;
                            assert(w != i);
                            assert(s2[w].0@ == t);
                        }
                    }
                    assert forall|t: Seq<char>| t != sym@ implies #[trigger] last_update_of(s2, t)
                        == last_update_of(s1, t) by {
                        if has_symbol(s1, t) {
                            let w = choose|w: int| 0 <= w < s1.len() && s1[w].0@ == t;
                            assert(w != i);
                            assert(s2[w].0@ == t);
                            lemma_last_update_at_index(s1, w);
                            lemma_last_update_at_index(s2, w);
                        }
                    }
                }
            },
            None => {
                self.prev_u.push((sym, upd));
                proof {
                    let s2 = self@;
                    assert(s2 == s1.push((sym, upd)));
                    assert(forall|k: int| 0 <= k < s1.len() ==> s2[k] == s1[k]);
                    assert(s2[s1.len() as int].0@ == sym@);
                    assert(unique_symbols(s2)) by {
                        assert forall|x: int, y: int| 0 <= x < y < s2.len() implies s2[x].0@
                            != s2[y].0@ by {
                            if y == s1.len() {
                                assert(s2[x] == s1[x]);
                                assert(!has_symbol(s1, sym@));
                            } else {
                                assert(s2[x] == s1[x] && s2[y] == s1[y]);
                            }
                        }
                    }
                    lemma_last_update_at_index(s2, s1.len() as int);
                    assert forall|t: Seq<char>| t != sym@ implies #[trigger] has_symbol(s2, t)
                        == has_symbol(s1, t) by {
                        if has_symbol(s2, t) {
                            let w = choose|w: int| 0 <= w < s2.len() && s2[w].0@ == t;
                            assert(w != s1.len());
                            assert(s1[w].0@ == t);
                        }
                        if has_symbol(s1, t) {
                            let w = choose|w: int| 0 <= w < s1.len() && s1[w].0@ == t;
                            assert(s2[w].0@ == t);
                        }
                    }
                    assert forall|t: Seq<char>| t != sym@ implies #[trigger] last_update_of(s2, t)
                        == last_update_of(s1, t) by {
                        if has_symbol(s1, t) {
                            let w = choose|w: int| 0 <= w < s1.len() && s1[w].0@ == t;
                            assert(s2[w].0@ == t);
                            lemma_last_update_at_index(s1, w);
                            lemma_last_update_at_index(s2, w);
                        }
                    }
                }
            },
        }
    }

    /// Applies one incremental depth message: reports whether a snapshot
    /// fetch must be started (no reconciliation state exists yet for the
    /// symbol), records the message's `last_update_id` as authoritative,
    /// and returns the message's feed events — bid levels before ask
    /// levels, or `Malformed` when a price or quantity does not parse.
    pub fn on_depth_update(&mut self, update: &DepthUpdate, local_ts: i64) -> (r: (
        bool,
        Result<Vec<FeedEvent>, StreamError>,
    ))
        requires
            old(self).wf(),
            0 <= update.transaction_time,
            update.transaction_time as int * MS_TO_NS as int <= i64::MAX as int,
        ensures
            final(self).wf(),
            r.0 == !has_symbol(old(self)@, lower_of(update.symbol@)),
            has_symbol(final(self)@, lower_of(update.symbol@)),
            last_update_of(final(self)@, lower_of(update.symbol@)) == update.last_update_id,
            forall|t: Seq<char>|
                t != lower_of(update.symbol@) ==> #[trigger] has_symbol(final(self)@, t)
                    == has_symbol(old(self)@, t),
            forall|t: Seq<char>|
                t != lower_of(update.symbol@) ==> #[trigger] last_update_of(final(self)@, t)
                    == last_update_of(old(self)@, t),
            (r.1 is Ok) == (all_levels_decimal(update.bids@) && all_levels_decimal(update.asks@)),
            r.1 is Err ==> r.1 == Result::<Vec<FeedEvent>, StreamError>::Err(
                StreamError::Malformed,
            ),
            r.1 matches Ok(evs) ==> evs@.len() == update.bids@.len() + update.asks@.len() && (
            forall|i: int|
                0 <= i < update.bids@.len() ==> event_matches(
                    #[trigger] evs@[i],
                    FeedKind::BidDepth,
                    lower_of(update.symbol@),
                    update.transaction_time as int * MS_TO_NS as int,
                    local_ts as int,
                    update.bids@[i].px@,
                    update.bids@[i].qty@,
                )) && (forall|i: int|
                0 <= i < update.asks@.len() ==> event_matches(
                    #[trigger] evs@[update.bids@.len() + i],
                    FeedKind::AskDepth,
                    lower_of(update.symbol@),
                    update.transaction_time as int * MS_TO_NS as int,
                    local_ts as int,
                    update.asks@[i].px@,
                    update.asks@[i].qty@,
                )),
    {
        let symbol_lower = to_lower(update.symbol.as_str());
        let fetch_snapshot = match self.find_symbol(&symbol_lower) {
            Some(_) => false,
            None => true,
        };
        self.set_last_update(symbol_lower, update.last_update_id);
        let events = depth_events(
            update.symbol.as_str(),
            update.transaction_time,
            &update.bids,
            &update.asks,
            local_ts,
        );
        (fetch_snapshot, events)
    }
}

/// The exchange subscription frame for a symbol: its trade stream and its
/// zero-latency depth stream, in one request.
pub fn subscribe_frame(symbol: &str) -> (r: String)
    ensures
        r@ == "{\"method\":\"SUBSCRIBE\",\"params\":[\""@ + symbol@ + "@trade\",\""@ + symbol@
            + "@depth@0ms\"],\"id\":1}"@,
{
    let mut s = "{\"method\":\"SUBSCRIBE\",\"params\":[\"".to_owned();
    s.append(symbol);
    s.append("@trade\",\"");
    s.append(symbol);
    s.append("@depth@0ms\"],\"id\":1}");
    s
}

/// One inbound item, as the connect loop's read half sees it.
#[derive(Debug, PartialEq, Eq)]
pub enum WsIncoming {
    Text(String),
    Ping(Vec<u8>),
    Pong,
    Binary(Vec<u8>),
    Frame,
    Close(Option<String>),
    TransportError(String),
    StreamEnd,
}

/// What the connect loop does with one inbound item.
#[derive(Debug, PartialEq, Eq)]
pub enum WsAction {
    ProcessText(String),
    ReplyPong,
    Ignore,
    AbortConnection(String),
    FailTransport(String),
    FailInterrupted,
}

/// Decides the connect loop's response to one inbound WebSocket item:
/// text is handed to the normalizer, a ping is answered with an empty
/// pong, binary frames, pongs and raw frames are ignored, a close frame
/// aborts the connection with the frame's reason (empty when it carries
/// none), a transport error surfaces as it is, and the end of the stream
/// is an interrupted connection.
pub fn ws_step(msg: WsIncoming) -> (r: WsAction)
    ensures
        match msg {
            WsIncoming::Text(t) => r matches WsAction::ProcessText(u) && u == t,
            WsIncoming::Ping(_) => r is ReplyPong,
            WsIncoming::Pong => r is Ignore,
            WsIncoming::Binary(_) => r is Ignore,
            WsIncoming::Frame => r is Ignore,
            WsIncoming::Close(f) => r matches WsAction::AbortConnection(reason) && reason@
                == match f {
                Some(text) => text@,
                None => Seq::<char>::empty(),
            },
            WsIncoming::TransportError(e) => r matches WsAction::FailTransport(u) && u == e,
            WsIncoming::StreamEnd => r is FailInterrupted,
        },
{
    match msg {
        WsIncoming::Text(t) => WsAction::ProcessText(t),
        WsIncoming::Ping(_) => WsAction::ReplyPong,
        WsIncoming::Pong => WsAction::Ignore,
        WsIncoming::Binary(_) => WsAction::Ignore,
        WsIncoming::Frame => WsAction::Ignore,
        WsIncoming::Close(f) => match f {
            Some(text) => WsAction::AbortConnection(text),
            None => WsAction::AbortConnection(String::new()),
        },
        WsIncoming::TransportError(e) => WsAction::FailTransport(e),
        WsIncoming::StreamEnd => WsAction::FailInterrupted,
    }
}

/// One item of the symbol-subscription channel.
#[derive(Debug, PartialEq, Eq)]
pub enum SymbolFeed {
    Symbol(String),
    Lagged(u64),
    Closed,
}

/// What the connect loop does with it.
#[derive(Debug, PartialEq, Eq)]
pub enum SubscribeAction {
    SendFrame(String),
    Continue,
    Finish,
}

/// Decides the response to the symbol-subscription channel: a new symbol
/// is subscribed with the standard frame, a lagged notice is logged and
/// skipped, and a closed channel ends the loop cleanly.
pub fn subscribe_step(msg: SymbolFeed) -> (r: SubscribeAction)
    ensures
        match msg {
            SymbolFeed::Symbol(sym) => r matches SubscribeAction::SendFrame(f) && f@
                == "{\"method\":\"SUBSCRIBE\",\"params\":[\""@ + sym@ + "@trade\",\""@ + sym@
                + "@depth@0ms\"],\"id\":1}"@,
            SymbolFeed::Lagged(_) => r is Continue,
            SymbolFeed::Closed => r is Finish,
        },
{
    match msg {
        SymbolFeed::Symbol(sym) => SubscribeAction::SendFrame(subscribe_frame(sym.as_str())),
        SymbolFeed::Lagged(_) => SubscribeAction::Continue,
        SymbolFeed::Closed => SubscribeAction::Finish,
    }
}

} // verus!
