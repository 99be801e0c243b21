//! The order book engine: a per-security structure of resting orders with
//! strict price-time priority, supporting insertion, cancellation by id, and
//! matching of crossing orders.

use vstd::prelude::*;
use crate::order::{OrderType, Price, SingleOrder, order_wf};

verus! {

/// A resting order together with the id the book minted for it.
#[derive(PartialEq, Debug)]
pub struct BookEntry {
    pub id: u64,
    pub order: SingleOrder,
}

/// The record of one execution: a crossing of a resting buy and a resting
/// sell.
#[derive(PartialEq, Eq, Structural, Clone, Copy, Debug)]
pub struct Trade {
    pub price: Price,
    pub quantity: i32,
    pub buy_order_id: u64,
    pub sell_order_id: u64,
    pub time: i32,
}

/// Cancelling an id that the book does not hold: it never existed, or was
/// already removed by a full fill or an earlier cancel.
#[derive(PartialEq, Eq, Structural, Clone, Copy, Debug)]
pub struct OrderNotFound;

/// Whether `a` outranks `b` on the given side: better price first, then the
/// earlier order time, then the earlier insertion (the smaller id).
pub open spec fn higher_priority(side: OrderType, a: BookEntry, b: BookEntry) -> bool {
    if a.order.price.ticks != b.order.price.ticks {
        if side == OrderType::BUY {
            a.order.price.ticks > b.order.price.ticks
        } else {
            a.order.price.ticks < b.order.price.ticks
        }
    } else if a.order.order_time != b.order.order_time {
        a.order.order_time < b.order.order_time
    } else {
        a.id < b.id
    }
}

/// On entries with distinct ids, priority is a total order.
pub proof fn lemma_priority_total(side: OrderType, a: BookEntry, b: BookEntry)
    requires
        a.id != b.id,
    ensures
        higher_priority(side, a, b) || higher_priority(side, b, a),
{
}

pub proof fn lemma_priority_trans(side: OrderType, a: BookEntry, b: BookEntry, c: BookEntry)
    requires
        higher_priority(side, a, b),
        higher_priority(side, b, c),
    ensures
        higher_priority(side, a, c),
{
}

/// A well-formed entry of one side: a well-formed order whose direction is
/// that side.
pub open spec fn entry_wf(e: BookEntry, side: OrderType) -> bool {
    e.order.direction == side && order_wf(e.order)
}

/// A well-formed side: sorted strictly by priority, ids distinct and all
/// below `bound`, every entry well-formed.
pub open spec fn side_wf(side: OrderType, s: Seq<BookEntry>, bound: int) -> bool {
    &&& forall|i: int, j: int|
        0 <= i < j < s.len() ==> higher_priority(side, #[trigger] s[i], #[trigger] s[j])
    &&& forall|i: int, j: int| 0 <= i < j < s.len() ==> (#[trigger] s[i]).id != (#[trigger] s[j]).id
    &&& forall|i: int| 0 <= i < s.len() ==> entry_wf(#[trigger] s[i], side) && s[i].id < bound
}

/// `news` is `olds` with `e` put in at one position, everything else kept in
/// order.
pub open spec fn is_insert_of(olds: Seq<BookEntry>, news: Seq<BookEntry>, e: BookEntry) -> bool {
    exists|i: int| 0 <= i <= olds.len() && news == olds.take(i) + seq![e] + olds.skip(i)
}

/// Whether some entry of `s` carries the id.
pub open spec fn has_id(s: Seq<BookEntry>, id: u64) -> bool {
    exists|i: int| 0 <= i < s.len() && (#[trigger] s[i]).id == id
}

/// The index of the entry carrying `id`.
pub open spec fn idx_of(s: Seq<BookEntry>, id: u64) -> int {
    choose|i: int| 0 <= i < s.len() && (#[trigger] s[i]).id == id
}

fn higher_priority_exec(side: OrderType, a: &BookEntry, b: &BookEntry) -> (r: bool)
    ensures
        r == higher_priority(side, *a, *b),
{
    if a.order.price.ticks != b.order.price.ticks {
        if side == OrderType::BUY {
            a.order.price.ticks > b.order.price.ticks
        } else {
            a.order.price.ticks < b.order.price.ticks
        }
    } else if a.order.order_time != b.order.order_time {
        a.order.order_time < b.order.order_time
    } else {
        a.id < b.id
    }
}

/// Puts `e` at its priority position in a sorted side whose resting ids all
/// precede `e.id`: the newcomer goes after everything it does not strictly
/// outrank.
fn insert_entry(side: OrderType, v: &mut Vec<BookEntry>, e: BookEntry)
    requires
        side_wf(side, old(v)@, e.id as int),
        entry_wf(e, side),
    ensures
        side_wf(side, final(v)@, e.id as int + 1),
        is_insert_of(old(v)@, final(v)@, e),
{
    let mut i: usize = 0;
    while i < v.len() && !higher_priority_exec(side, &e, &v[i])
        invariant
            0 <= i <= v@.len(),
            forall|k: int| 0 <= k < i ==> !higher_priority(side, e, #[trigger] v@[k]),
            side_wf(side, v@, e.id as int),
            entry_wf(e, side),
            v@ == old(v)@,
        decreases v@.len() - i,
    {
        i = i + 1;
    }
    let ghost pos = i as int;
    let ghost olds = v@;
    v.insert(i, e);
    proof {
        assert(v@ == olds.take(pos) + seq![e] + olds.skip(pos)) by {
            assert(v@ =~= olds.take(pos) + seq![e] + olds.skip(pos));
        }
        let news = v@;
        assert forall|a: int, b: int| 0 <= a < b < news.len() implies higher_priority(
            side,
            #[trigger] news[a],
            #[trigger] news[b],
        ) && news[a].id != news[b].id by {
            if b < pos {
                assert(news[a] == olds[a] && news[b] == olds[b]);
            } else if a < pos && b == pos {
                assert(news[a] == olds[a] && news[b] == e);
                assert(!higher_priority(side, e, olds[a]));
                lemma_priority_total(side, e, olds[a]);
            } else if a < pos && b > pos {
                assert(news[a] == olds[a] && news[b] == olds[b - 1]);
            } else if a == pos {
                assert(news[a] == e && news[b] == olds[b - 1]);
                assert(pos < olds.len() && higher_priority(side, e, olds[pos]));
                if b - 1 > pos {
                    assert(higher_priority(side, olds[pos], olds[b - 1]));
                    lemma_priority_trans(side, e, olds[pos], olds[b - 1]);
                }
            } else {
                assert(news[a] == olds[a - 1] && news[b] == olds[b - 1]);
            }
        }
        assert forall|k: int| 0 <= k < news.len() implies entry_wf(#[trigger] news[k], side)
            && news[k].id < e.id as int + 1 by {
            if k < pos {
                assert(news[k] == olds[k]);
            } else if k > pos {
                assert(news[k] == olds[k - 1]);
            }
        }
    }
}

/// The per-security book: both sides of resting liquidity and the id counter.
///
/// Each side is kept sorted by priority, best first, so the best price is at
/// the front and matching consumes from the front. Ids are minted strictly
/// increasing and never reused.
#[derive(Debug)]
pub struct OrderBook {
    pub bids: Vec<BookEntry>,
    pub asks: Vec<BookEntry>,
    pub next_id: u64,
}

impl OrderBook {
    /// The resting entries of one side, best priority first.
    pub open spec fn side_seq(&self, side: OrderType) -> Seq<BookEntry> {
        if side == OrderType::BUY {
            self.bids@
        } else {
            self.asks@
        }
    }

    /// The book's invariant: both sides sorted and well-formed, every id
    /// below the counter, no id on both sides.
    pub open spec fn wf(&self) -> bool {
        &&& side_wf(OrderType::BUY, self.bids@, self.next_id as int)
        &&& side_wf(OrderType::SELL, self.asks@, self.next_id as int)
        &&& forall|i: int, j: int|
            0 <= i < self.bids@.len() && 0 <= j < self.asks@.len() ==> (#[trigger] self.bids@[i]).id
                != (#[trigger] self.asks@[j]).id
    }

    /// An empty book for one security.
    pub fn new() -> (book: OrderBook)
        ensures
            book.wf(),
            book.bids@.len() == 0,
            book.asks@.len() == 0,
            book.next_id == 0,
    {
        OrderBook { bids: Vec::new(), asks: Vec::new(), next_id: 0 }
    }

    /// Adds a validated order to its side of the book and returns the fresh
    /// id minted for it.
    ///
    /// The order rests at its priority position; nothing else moves, no
    /// matching is attempted, and the id counter advances by one.
    pub fn add_order(&mut self, new_order: SingleOrder) -> (id: u64)
        requires
            old(self).wf(),
            order_wf(new_order),
            old(self).next_id < u64::MAX,
        ensures
            final(self).wf(),
            id == old(self).next_id,
            final(self).next_id == old(self).next_id + 1,
            new_order.direction == OrderType::BUY ==> final(self).asks@ == old(self).asks@
                && is_insert_of(
                old(self).bids@,
                final(self).bids@,
                BookEntry { id, order: new_order },
            ),
            new_order.direction == OrderType::SELL ==> final(self).bids@ == old(self).bids@
                && is_insert_of(
                old(self).asks@,
                final(self).asks@,
                BookEntry { id, order: new_order },
            ),
    {
        let id = self.next_id;
        let entry = BookEntry { id, order: new_order };
        let is_buy = matches!(entry.order.direction, OrderType::BUY);
        if is_buy {
            insert_entry(OrderType::BUY, &mut self.bids, entry);
        } else {
            insert_entry(OrderType::SELL, &mut self.asks, entry);
        }
        self.next_id = id + 1;
        proof {
            lemma_insert_keeps_ids(if is_buy {
                old(self).bids@
            } else {
                old(self).asks@
            }, self.side_seq(if is_buy {
                OrderType::BUY
            } else {
                OrderType::SELL
            }), BookEntry { id, order: new_order });
        }
        id
    }

    /// How many orders rest on one side.
    pub fn depth(&self, side: OrderType) -> (n: usize)
        ensures
            n == self.side_seq(side).len(),
    {
        if matches!(side, OrderType::BUY) {
            self.bids.len()
        } else {
            self.asks.len()
        }
    }

    /// The best resting entry of one side: the front of the sorted side,
    /// which outranks every other resting entry there.
    pub fn peek_best(&self, side: OrderType) -> (r: Option<&BookEntry>)
        requires
            self.wf(),
        ensures
            match r {
                None => self.side_seq(side).len() == 0,
                Some(e) => {
                    &&& self.side_seq(side).len() > 0
                    &&& *e == self.side_seq(side)[0]
                    &&& forall|k: int|
                        0 < k < self.side_seq(side).len() ==> higher_priority(
                            side,
                            *e,
                            #[trigger] self.side_seq(side)[k],
                        )
                },
            },
    {
        let v = if matches!(side, OrderType::BUY) {
            &self.bids
        } else {
            &self.asks
        };
        if v.len() > 0 {
            Some(&v[0])
        } else {
            None
        }
    }
}

/// What remains of a side when the entry at `i` leaves.
pub open spec fn seq_without(s: Seq<BookEntry>, i: int) -> Seq<BookEntry> {
    s.take(i) + s.skip(i + 1)
}

/// Removing one entry keeps a side well-formed, keeps every other id, and —
/// ids being distinct — leaves no entry with the removed id.
proof fn lemma_side_remove(side: OrderType, s: Seq<BookEntry>, i: int, bound: int)
    requires
        side_wf(side, s, bound),
        0 <= i < s.len(),
    ensures
        side_wf(side, seq_without(s, i), bound),
        forall|x: u64| has_id(seq_without(s, i), x) ==> has_id(s, x),
        !has_id(seq_without(s, i), s[i].id),
{
    let t = seq_without(s, i);
    assert forall|a: int, b: int| 0 <= a < b < t.len() implies higher_priority(
        side,
        #[trigger] t[a],
        #[trigger] t[b],
    ) && t[a].id != t[b].id by {
        let a0 = if a < i {
            a
        } else {
            a + 1
        };
        let b0 = if b < i {
            b
        } else {
            b + 1
        };
        assert(t[a] == s[a0] && t[b] == s[b0]);
    }
    assert forall|k: int| 0 <= k < t.len() implies entry_wf(#[trigger] t[k], side) && t[k].id
        < bound by {
        let k0 = if k < i {
            k
        } else {
            k + 1
        };
        assert(t[k] == s[k0]);
    }
    assert forall|x: u64| has_id(t, x) implies has_id(s, x) by {
        let k = idx_of(t, x);
        let k0 = if k < i {
            k
        } else {
            k + 1
        };
        assert(s[k0].id == x);
    }
    if has_id(t, s[i].id) {
        let k = idx_of(t, s[i].id);
        let k0 = if k < i {
            k
        } else {
            k + 1
        };
        assert(s[k0].id == s[i].id && k0 != i);
        assert(false);
    }
}

/// The position of `id` in `v`, when it rests there.
fn find_id(v: &Vec<BookEntry>, id: u64) -> (r: Option<usize>)
    ensures
        match r {
            Some(i) => i < v@.len() && v@[i as int].id == id,
            None => !has_id(v@, id),
        },
{
    let mut i: usize = 0;
    while i < v.len()
        invariant
            0 <= i <= v@.len(),
            forall|k: int| 0 <= k < i ==> (#[trigger] v@[k]).id != id,
        decreases v@.len() - i,
    {
        if v[i].id == id {
            return Some(i);
        }
        i = i + 1;
    }
    None
}

impl OrderBook {
    /// Removes the resting order with this id from the book and returns its
    /// snapshot, size as it stands after any partial fills.
    ///
    /// An id the book does not hold — never minted, already cancelled, or
    /// fully filled — fails with `OrderNotFound` and mutates nothing, so a
    /// second cancel of the same id always fails.
    pub fn cancel_order(&mut self, id: u64) -> (r: Result<SingleOrder, OrderNotFound>)
        requires
            old(self).wf(),
        ensures
            final(self).wf(),
            final(self).next_id == old(self).next_id,
            !has_id(old(self).bids@, id) && !has_id(old(self).asks@, id) ==> r == Err::<
                SingleOrder,
                OrderNotFound,
            >(OrderNotFound) && *final(self) == *old(self),
            has_id(old(self).bids@, id) ==> {
                let i = idx_of(old(self).bids@, id);
                &&& r matches Ok(ord) && ord == old(self).bids@[i].order
                &&& final(self).bids@ == seq_without(old(self).bids@, i)
                &&& final(self).asks@ == old(self).asks@
            },
            has_id(old(self).asks@, id) ==> {
                let i = idx_of(old(self).asks@, id);
                &&& r matches Ok(ord) && ord == old(self).asks@[i].order
                &&& final(self).asks@ == seq_without(old(self).asks@, i)
                &&& final(self).bids@ == old(self).bids@
            },
            !has_id(final(self).bids@, id) && !has_id(final(self).asks@, id),
    {
        if let Some(i) = find_id(&self.bids, id) {
            proof {
                assert(has_id(self.bids@, id));
                let c = idx_of(self.bids@, id);
                if c != i as int {
                    assert(self.bids@[c].id == self.bids@[i as int].id);
                    assert(false);
                }
                lemma_side_remove(OrderType::BUY, self.bids@, i as int, self.next_id as int);
            }
            let ghost olds = self.bids@;
            let entry = self.bids.remove(i);
            proof {
                assert(self.bids@ =~= seq_without(olds, i as int));
                if has_id(olds, id) && has_id(old(self).asks@, id) {
                    let bi = idx_of(olds, id);
                    let ai = idx_of(old(self).asks@, id);
                    assert(olds[bi].id == old(self).asks@[ai].id);
                    assert(false);
                }
            }
            return Ok(entry.order);
        }
        if let Some(i) = find_id(&self.asks, id) {
            proof {
                assert(has_id(self.asks@, id));
                let c = idx_of(self.asks@, id);
                if c != i as int {
                    assert(self.asks@[c].id == self.asks@[i as int].id);
                    assert(false);
                }
                lemma_side_remove(OrderType::SELL, self.asks@, i as int, self.next_id as int);
            }
            let ghost olds = self.asks@;
            let entry = self.asks.remove(i);
            proof {
                assert(self.asks@ =~= seq_without(olds, i as int));
            }
            return Ok(entry.order);
        }
        Err(OrderNotFound)
    }
}

// ---------------------------------------------------------------------------
// Matching.
// ---------------------------------------------------------------------------

/// A cross: both sides rest and the best bid's price reaches the best ask's.
pub open spec fn crossed(bids: Seq<BookEntry>, asks: Seq<BookEntry>) -> bool {
    bids.len() > 0 && asks.len() > 0 && bids[0].order.price.ticks >= asks[0].order.price.ticks
}

/// Whether the bid was resting before the ask arrived: the earlier order
/// time, with the earlier insertion breaking a tie.
pub open spec fn bid_rests_first(b: BookEntry, a: BookEntry) -> bool {
    b.order.order_time < a.order.order_time || (b.order.order_time == a.order.order_time && b.id
        < a.id)
}

/// The trade a crossing bid and ask produce: the resting (earlier) order sets
/// the price, the smaller remaining size sets the quantity, and the later
/// arrival sets the time.
pub open spec fn trade_of(b: BookEntry, a: BookEntry) -> Trade {
    Trade {
        price: if bid_rests_first(b, a) {
            b.order.price
        } else {
            a.order.price
        },
        quantity: if b.order.size <= a.order.size {
            b.order.size
        } else {
            a.order.size
        },
        buy_order_id: b.id,
        sell_order_id: a.id,
        time: if b.order.order_time >= a.order.order_time {
            b.order.order_time
        } else {
            a.order.order_time
        },
    }
}

/// A side after its front order fills by `qty`: gone when fully filled, else
/// resting at its place with its size reduced.
pub open spec fn side_after_fill(s: Seq<BookEntry>, qty: i32) -> Seq<BookEntry> {
    if s[0].order.size == qty {
        s.drop_first()
    } else {
        s.update(
            0,
            BookEntry {
                id: s[0].id,
                order: SingleOrder {
                    size: (s[0].order.size - qty) as i32,
                    ..s[0].order
                },
            },
        )
    }
}

/// What one round of matching leaves: the trades in the order struck, and
/// both sides as they rest afterwards.
pub ghost struct MatchRes {
    pub trades: Seq<Trade>,
    pub bids: Seq<BookEntry>,
    pub asks: Seq<BookEntry>,
}

/// The whole matching round as a function of the two sides: while a cross
/// exists, the two front orders trade; the round stops when none remains.
pub open spec fn match_spec(bids: Seq<BookEntry>, asks: Seq<BookEntry>) -> MatchRes
    decreases bids.len() + asks.len(),
{
    if !crossed(bids, asks) {
        MatchRes { trades: Seq::empty(), bids, asks }
    } else {
        let t = trade_of(bids[0], asks[0]);
        let rest = match_spec(side_after_fill(bids, t.quantity), side_after_fill(asks, t.quantity));
        MatchRes { trades: seq![t] + rest.trades, bids: rest.bids, asks: rest.asks }
    }
}

/// A fill at the front keeps a side well-formed — priority never reads the
/// size — and introduces no id.
proof fn lemma_side_after_fill(side: OrderType, s: Seq<BookEntry>, qty: i32, bound: int)
    requires
        side_wf(side, s, bound),
        s.len() > 0,
        1 <= qty <= s[0].order.size,
    ensures
        side_wf(side, side_after_fill(s, qty), bound),
        forall|x: u64| has_id(side_after_fill(s, qty), x) ==> has_id(s, x),
{
    let t = side_after_fill(s, qty);
    if s[0].order.size == qty {
        assert(t =~= seq_without(s, 0));
        lemma_side_remove(side, s, 0, bound);
    } else {
        assert forall|a: int, b: int| 0 <= a < b < t.len() implies higher_priority(
            side,
            #[trigger] t[a],
            #[trigger] t[b],
        ) && t[a].id != t[b].id by {
            assert(t[b] == s[b]);
            if a > 0 {
                assert(t[a] == s[a]);
            }
        }
        assert forall|k: int| 0 <= k < t.len() implies entry_wf(#[trigger] t[k], side) && t[k].id
            < bound by {
            if k > 0 {
                assert(t[k] == s[k]);
            }
        }
        assert forall|x: u64| has_id(t, x) implies has_id(s, x) by {
            let k = idx_of(t, x);
            assert(s[k].id == x);
        }
    }
}

impl OrderBook {
    /// Matches crossing orders until no cross remains, returning the trades
    /// in the order they were struck.
    ///
    /// Matching runs only on explicit request; `add_order` never matches on
    /// its own. The round is exactly `match_spec` of the book as it stood,
    /// and afterwards either a side is empty or the best bid's price is below
    /// the best ask's. A round on an uncrossed book — such as right after a
    /// previous round — trades nothing and moves nothing.
    pub fn match_orders(&mut self) -> (trades: Vec<Trade>)
        requires
            old(self).wf(),
        ensures
            final(self).wf(),
            final(self).next_id == old(self).next_id,
            trades@ == match_spec(old(self).bids@, old(self).asks@).trades,
            final(self).bids@ == match_spec(old(self).bids@, old(self).asks@).bids,
            final(self).asks@ == match_spec(old(self).bids@, old(self).asks@).asks,
            !crossed(final(self).bids@, final(self).asks@),
    {
        let mut trades: Vec<Trade> = Vec::new();
        let ghost m0 = match_spec(old(self).bids@, old(self).asks@);
        while self.bids.len() > 0 && self.asks.len() > 0
            && self.bids[0].order.price.ticks >= self.asks[0].order.price.ticks
            invariant
                self.wf(),
                self.next_id == old(self).next_id,
                m0 == match_spec(old(self).bids@, old(self).asks@),
                m0.trades == trades@ + match_spec(self.bids@, self.asks@).trades,
                m0.bids == match_spec(self.bids@, self.asks@).bids,
                m0.asks == match_spec(self.bids@, self.asks@).asks,
            decreases self.bids@.len() + self.asks@.len(),
        {
            let ghost cur_bids = self.bids@;
            let ghost cur_asks = self.asks@;
            let b_size = self.bids[0].order.size;
            let a_size = self.asks[0].order.size;
            let qty = if b_size <= a_size {
                b_size
            } else {
                a_size
            };
            let b_id = self.bids[0].id;
            let a_id = self.asks[0].id;
            let b_time = self.bids[0].order.order_time;
            let a_time = self.asks[0].order.order_time;
            let price = if b_time < a_time || (b_time == a_time && b_id < a_id) {
                self.bids[0].order.price
            } else {
                self.asks[0].order.price
            };
            let time = if b_time >= a_time {
                b_time
            } else {
                a_time
            };
            let trade = Trade { price, quantity: qty, buy_order_id: b_id, sell_order_id: a_id, time };
            proof {
                assert(trade == trade_of(cur_bids[0], cur_asks[0]));
            }
            trades.push(trade);
            if b_size == qty {
                let _ = self.bids.remove(0);
                proof {
                    assert(self.bids@ =~= side_after_fill(cur_bids, qty));
                }
            } else {
                let mut e = self.bids.remove(0);
                e.order.size = e.order.size - qty;
                self.bids.insert(0, e);
                proof {
                    assert(self.bids@ =~= side_after_fill(cur_bids, qty));
                }
            }
            if a_size == qty {
                let _ = self.asks.remove(0);
                proof {
                    assert(self.asks@ =~= side_after_fill(cur_asks, qty));
                }
            } else {
                let mut e = self.asks.remove(0);
                e.order.size = e.order.size - qty;
                self.asks.insert(0, e);
                proof {
                    assert(self.asks@ =~= side_after_fill(cur_asks, qty));
                }
            }
            proof {
                lemma_side_after_fill(OrderType::BUY, cur_bids, qty, self.next_id as int);
                lemma_side_after_fill(OrderType::SELL, cur_asks, qty, self.next_id as int);
                assert forall|i: int, j: int|
                    0 <= i < self.bids@.len() && 0 <= j < self.asks@.len() implies (
                #[trigger] self.bids@[i]).id != (#[trigger] self.asks@[j]).id by {
                    assert(has_id(self.bids@, self.bids@[i].id));
                    assert(has_id(self.asks@, self.asks@[j].id));
                    if self.bids@[i].id == self.asks@[j].id {
                        let bi = idx_of(cur_bids, self.bids@[i].id);
                        let ai = idx_of(cur_asks, self.asks@[j].id);
                        assert(cur_bids[bi].id == cur_asks[ai].id);
                        assert(false);
                    }
                }
                let rest = match_spec(self.bids@, self.asks@);
                assert(match_spec(cur_bids, cur_asks).trades == seq![trade] + rest.trades);
                assert(trades@ + rest.trades =~= m0.trades);
            }
        }
        proof {
            assert(match_spec(self.bids@, self.asks@).trades =~= Seq::<Trade>::empty());
            assert(m0.trades =~= trades@);
        }
        trades
    }
}

// ---------------------------------------------------------------------------
// Laws of matching.
// ---------------------------------------------------------------------------

/// No self-cross is left unresolved: whatever a matching round is run on,
/// what it leaves is uncrossed — one side empty, or best bid strictly below
/// best ask.
pub proof fn lemma_match_no_cross(bids: Seq<BookEntry>, asks: Seq<BookEntry>)
    ensures
        !crossed(match_spec(bids, asks).bids, match_spec(bids, asks).asks),
    decreases bids.len() + asks.len(),
{
    if crossed(bids, asks) {
        let t = trade_of(bids[0], asks[0]);
        lemma_match_no_cross(side_after_fill(bids, t.quantity), side_after_fill(asks, t.quantity));
    }
}

/// Matching an uncrossed book is a fixed point: a second round right after a
/// first — with no order added in between — trades nothing and leaves both
/// sides exactly as they were.
pub proof fn lemma_match_idempotent(bids: Seq<BookEntry>, asks: Seq<BookEntry>)
    ensures
        ({
            let once = match_spec(bids, asks);
            let again = match_spec(once.bids, once.asks);
            again.trades == Seq::<Trade>::empty() && again.bids == once.bids && again.asks
                == once.asks
        }),
{
    lemma_match_no_cross(bids, asks);
}

/// Every trade a round strikes names a bid id and an ask id that were
/// resting in the book the round was run on.
pub proof fn lemma_match_trades_from_resting(bids: Seq<BookEntry>, asks: Seq<BookEntry>)
    ensures
        forall|k: int|
            0 <= k < match_spec(bids, asks).trades.len() ==> has_id(
                bids,
                (#[trigger] match_spec(bids, asks).trades[k]).buy_order_id,
            ) && has_id(asks, match_spec(bids, asks).trades[k].sell_order_id),
    decreases bids.len() + asks.len(),
{
    if crossed(bids, asks) {
        let t = trade_of(bids[0], asks[0]);
        let bids2 = side_after_fill(bids, t.quantity);
        let asks2 = side_after_fill(asks, t.quantity);
        lemma_match_trades_from_resting(bids2, asks2);
        assert forall|x: u64| has_id(bids2, x) implies has_id(bids, x) by {
            let k = idx_of(bids2, x);
            if bids[0].order.size == t.quantity {
                assert(bids[k + 1].id == x);
            } else {
                assert(bids[k].id == x);
            }
        }
        assert forall|x: u64| has_id(asks2, x) implies has_id(asks, x) by {
            let k = idx_of(asks2, x);
            if asks[0].order.size == t.quantity {
                assert(asks[k + 1].id == x);
            } else {
                assert(asks[k].id == x);
            }
        }
        let ts = match_spec(bids, asks).trades;
        let rest = match_spec(bids2, asks2).trades;
        assert forall|k: int| 0 <= k < ts.len() implies has_id(
            bids,
            (#[trigger] ts[k]).buy_order_id,
        ) && has_id(asks, ts[k].sell_order_id) by {
            if k == 0 {
                assert(ts[0] == t && bids[0].id == t.buy_order_id && asks[0].id
                    == t.sell_order_id);
            } else {
                assert(ts[k] == rest[k - 1]);
            }
        }
    }
}

/// An order the book no longer holds — cancelled, or already fully filled —
/// is out of consideration: no trade of any later matching round names its
/// id.
pub proof fn lemma_cancelled_never_matched(bids: Seq<BookEntry>, asks: Seq<BookEntry>, id: u64)
    requires
        !has_id(bids, id),
        !has_id(asks, id),
    ensures
        forall|k: int|
            0 <= k < match_spec(bids, asks).trades.len() ==> (#[trigger] match_spec(
                bids,
                asks,
            ).trades[k]).buy_order_id != id && match_spec(bids, asks).trades[k].sell_order_id != id,
{
    lemma_match_trades_from_resting(bids, asks);
}

/// Inserting an entry adds its id and keeps every other id.
proof fn lemma_insert_keeps_ids(olds: Seq<BookEntry>, news: Seq<BookEntry>, e: BookEntry)
    requires
        is_insert_of(olds, news, e),
    ensures
        forall|x: u64| has_id(news, x) <==> (has_id(olds, x) || x == e.id),
{
    let pos = choose|i: int| 0 <= i <= olds.len() && news == olds.take(i) + seq![e] + olds.skip(i);
    assert forall|x: u64| has_id(news, x) implies (has_id(olds, x) || x == e.id) by {
        let k = idx_of(news, x);
        assert(news[k].id == x);
        if k < pos {
            assert(olds[k].id == x);
        } else if k > pos {
            assert(olds[k - 1].id == x);
        }
    }
    assert forall|x: u64| (has_id(olds, x) || x == e.id) implies has_id(news, x) by {
        if x == e.id {
            assert(news[pos].id == x);
        } else {
            let k = idx_of(olds, x);
            if k < pos {
                assert(news[k].id == x);
            } else {
                assert(news[k + 1].id == x);
            }
        }
    }
}

} // verus!
