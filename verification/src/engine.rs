use vstd::prelude::*;

use crate::book::better_price;
use crate::book::book_unchanged;
use crate::book::booked_side_shape;
use crate::book::crossing_avail_rec;
use crate::book::removed_at_shape;
use crate::book::IndexEntry;
use crate::book::lemma_order_count_nonneg;
use crate::book::spec_crosses_best;
use crate::book::trades_emitted_ok;
use crate::book::trades_qty_sum;
use crate::book::side_viewed;
use crate::book::LevelView;
use crate::book::Orderbook;
use crate::book::Trade;
use crate::order::Order;
use crate::order::OrderId;
use crate::order::OrderPrice;
use crate::order::OrderQuantity;
use crate::order::OrderRequest;
use crate::order::OrderSide;
use crate::order::OrderStatus;
use crate::order::OrderType;
use crate::order::TimeInForce;

verus! {

broadcast use vstd::string::group_string_axioms;

/// Boundary errors the engine surfaces to its host.
#[derive(Clone, Debug, PartialEq, Eq)]
pub enum EngineError {
    InvalidPair { expected: String, found: String },
}

/// The order an engine builds from a create request: a GTC limit order
/// when a limit price is given, a market order otherwise.
pub open spec fn spec_order_of_request(
    order_id: u64,
    side: OrderSide,
    limit_price: Option<OrderPrice>,
    quantity: OrderQuantity,
) -> Order {
    match limit_price {
        Some(p) => Order {
            id: OrderId(order_id),
            side,
            type_: OrderType::Limit {
                limit_price: p,
                time_in_force: TimeInForce::GoodTilCancel { post_only: false },
            },
            order_quantity: quantity,
            filled_quantity: 0,
            status: OrderStatus::Open,
        },
        None => Order {
            id: OrderId(order_id),
            side,
            type_: OrderType::Market { fill_or_kill: false },
            order_quantity: quantity,
            filled_quantity: 0,
            status: OrderStatus::Open,
        },
    }
}

/// A known cancel removed exactly the order with this id from the side
/// its index entry named: one position left its level (or took the whole
/// level with it), and nothing else moved.
pub open spec fn cancel_removed_shape(b0: Orderbook, b1: Orderbook, order_id: u64) -> bool {
    exists|i: int, j: int|
        removed_at_shape(
            b0.spec_side(b0.index@[order_id].side),
            b1.spec_side(b0.index@[order_id].side),
            order_id,
            i,
            j,
        )
}

/// The taker as it stands after the call's fills: the request's order
/// carrying the traded quantity, Open while untouched, Partial while
/// short of its quantity, Completed when exactly full.
pub open spec fn spec_filled_taker(taker: Order, trades: Seq<Trade>) -> Order {
    Order {
        filled_quantity: trades_qty_sum(trades) as crate::order::OrderQuantity,
        status: if trades.len() == 0 {
            OrderStatus::Open
        } else if trades_qty_sum(trades) == taker.order_quantity {
            OrderStatus::Completed
        } else {
            OrderStatus::Partial
        },
        ..taker
    }
}

/// The engine facade: one trading pair, the resting book, the trades
/// emitted since the last drain, and the next sequence number.
pub struct Engine {
    pub pair: String,
    pub orderbook: Orderbook,
    pub trades: Vec<Trade>,
    pub next_sequence: u64,
}

impl Engine {
    /// Engine validity: the book invariant holds, and the retained trades
    /// carry strictly increasing sequence numbers, all below the next one.
    pub open spec fn wf(self) -> bool {
        &&& self.orderbook.wf()
        &&& forall|k: int|
            0 <= k < self.trades@.len() ==> (#[trigger] self.trades@[k]).sequence
                < self.next_sequence
        &&& forall|k1: int, k2: int|
            0 <= k1 < k2 < self.trades@.len() ==> (#[trigger] self.trades@[k1]).sequence < (
            #[trigger] self.trades@[k2]).sequence
    }

    pub fn new(pair: &str) -> (r: Engine)
        ensures
            r.wf(),
            r.pair@ == pair@,
            r.orderbook.asks.levels@.len() == 0,
            r.orderbook.bids.levels@.len() == 0,
            r.orderbook.index@ =~= Map::<u64, crate::book::IndexEntry>::empty(),
            r.trades@.len() == 0,
            r.next_sequence == 0,
    {
        Engine {
            pair: pair.to_string(),
            orderbook: Orderbook::new(),
            trades: Vec::new(),
            next_sequence: 0,
        }
    }

    pub fn orderbook(&self) -> (r: &Orderbook)
        ensures
            r == &self.orderbook,
    {
        &self.orderbook
    }

    /// Handle one request. A create builds the order and matches it; a
    /// cancel removes the resting order, silently ignoring unknown ids.
    /// A create naming another pair is rejected and changes nothing.
    pub fn process(&mut self, order_request: OrderRequest) -> (r: Result<(), EngineError>)
        requires
            old(self).wf(),
            (match order_request {
                OrderRequest::Create { order_id, .. } => !old(self).orderbook.index@.contains_key(order_id),
                OrderRequest::Cancel { .. } => true,
            }),
            old(self).next_sequence + old(self).orderbook.asks.spec_order_count() + old(self).orderbook.bids.spec_order_count() + 2 <= u64::MAX,
        ensures
            final(self).wf(),
            final(self).pair == old(self).pair,
            (match order_request {
                OrderRequest::Cancel { order_id } => {
                    &&& r is Ok
                    &&& final(self).trades == old(self).trades
                    &&& final(self).next_sequence == old(self).next_sequence
                    &&& (!old(self).orderbook.index@.contains_key(order_id) ==> final(self).orderbook == old(self).orderbook)
                    &&& (old(self).orderbook.index@.contains_key(order_id) ==> final(self).orderbook.index@ == old(self).orderbook.index@.remove(order_id))
                    &&& (old(self).orderbook.index@.contains_key(order_id) ==> final(self).orderbook.spec_side(
                        old(self).orderbook.index@[order_id].side.spec_opposite(),
                    ) == old(self).orderbook.spec_side(
                        old(self).orderbook.index@[order_id].side.spec_opposite(),
                    ))
                    &&& (old(self).orderbook.index@.contains_key(order_id) ==> cancel_removed_shape(old(self).orderbook, final(self).orderbook, order_id))
                },
                OrderRequest::Create { order_id, pair, side, limit_price, quantity, .. } => {
                    let taker = spec_order_of_request(order_id, side, limit_price, quantity);
                    if pair@ != old(self).pair@ {
                        &&& (r matches Err(EngineError::InvalidPair { expected, found })
                            && expected@ == old(self).pair@ && found@ == pair@)
                        &&& final(self).orderbook == old(self).orderbook
                        &&& final(self).trades == old(self).trades
                        &&& final(self).next_sequence == old(self).next_sequence
                    } else {
                        let nt = final(self).trades@.skip(old(self).trades@.len() as int);
                        &&& r is Ok
                        &&& final(self).trades@.len() >= old(self).trades@.len()
                        &&& final(self).trades@.subrange(0, old(self).trades@.len() as int) == old(self).trades@
                        &&& trades_emitted_ok(
                            nt,
                            taker,
                            old(self).next_sequence,
                            side.spec_opposite(),
                        )
                        &&& final(self).next_sequence == old(self).next_sequence + nt.len()
                        &&& (taker.spec_is_post_only() && spec_crosses_best(
                            old(self).orderbook,
                            taker,
                        ) ==> book_unchanged(old(self).orderbook, final(self).orderbook)
                            && nt.len() == 0)
                        &&& (taker.spec_is_fill_or_kill() && crossing_avail_rec(
                            old(self).orderbook.spec_side(side.spec_opposite()).levels@,
                            taker,
                        ) < quantity ==> book_unchanged(old(self).orderbook, final(self).orderbook)
                            && nt.len() == 0)
                        // what the request's order did to the book: its
                        // fills sum below its quantity, a market residual
                        // cancelled, a limit residual rested and indexed,
                        // a full fill closing the taker out
                        &&& nt.len() <= old(self).orderbook.spec_side(
                            side.spec_opposite(),
                        ).spec_order_count() + 1
                        &&& trades_qty_sum(nt) <= quantity
                        &&& (limit_price is None && quantity - trades_qty_sum(nt) > 0) ==> {
                            &&& !final(self).orderbook.index@.contains_key(order_id)
                            &&& final(self).orderbook.spec_side(side) == old(self).orderbook.spec_side(side)
                        }
                        &&& (limit_price is Some && quantity - trades_qty_sum(nt) > 0) ==> {
                            &&& final(self).orderbook.index@.contains_key(order_id)
                            &&& final(self).orderbook.index@[order_id] == (IndexEntry {
                                side,
                                price: limit_price->Some_0,
                            })
                            &&& booked_side_shape(
                                old(self).orderbook.spec_side(side),
                                final(self).orderbook.spec_side(side),
                                spec_filled_taker(taker, nt),
                            )
                        }
                        &&& (quantity - trades_qty_sum(nt) == 0 && nt.len() > 0) ==> {
                            &&& !final(self).orderbook.index@.contains_key(order_id)
                            &&& final(self).orderbook.spec_side(side) == old(self).orderbook.spec_side(side)
                        }
                        &&& (quantity - trades_qty_sum(nt) == 0 && nt.len() == 0) ==> book_unchanged(
                            old(self).orderbook,
                            final(self).orderbook,
                        )
                        // the matcher ran down to the taker's price limit
                        &&& (quantity - trades_qty_sum(nt) > 0 && final(self).orderbook.spec_side(
                            side.spec_opposite(),
                        ).levels@.len() > 0) ==> !taker.spec_price_crosses(
                            final(self).orderbook.spec_side(side.spec_opposite()).levels@[0].price,
                        )
                        // with nothing traded the opposing side is
                        // untouched, and no key but this request's id can
                        // ever join the index
                        &&& (nt.len() == 0 ==> final(self).orderbook.spec_side(
                            side.spec_opposite(),
                        ) == old(self).orderbook.spec_side(side.spec_opposite()))
                        &&& (forall|k: u64|
                            #[trigger] final(self).orderbook.index@.contains_key(k) ==> old(
                                self,
                            ).orderbook.index@.contains_key(k) || k == order_id)
                        // the best opposing price only worsens
                        &&& final(self).orderbook.spec_side(side.spec_opposite()).levels@.len() > 0
                            ==> {
                            let s0 = old(self).orderbook.spec_side(side.spec_opposite());
                            let s1 = final(self).orderbook.spec_side(side.spec_opposite());
                            &&& s0.levels@.len() > 0
                            &&& (s1.levels@[0].price == s0.levels@[0].price || better_price(
                                side.spec_opposite(),
                                s0.levels@[0].price,
                                s1.levels@[0].price,
                            ))
                        }
                    }
                },
            }),
    {
        match order_request {
            OrderRequest::Create { account_id: _, order_id, pair, side, limit_price, quantity } => {
                if !(pair == self.pair) {
                    let expected = self.pair.clone();
                    return Err(EngineError::InvalidPair { expected, found: pair });
                }
                let taker = match limit_price {
                    Some(p) => Order::limit_order(OrderId::new(order_id), side, quantity, p),
                    None => Order::market_order(OrderId::new(order_id), side, quantity),
                };
                let ghost old_trades = self.trades@;
                let ghost seq0 = self.next_sequence;
                proof {
                    lemma_order_count_nonneg(self.orderbook.asks.levels@);
                    lemma_order_count_nonneg(self.orderbook.bids.levels@);
                    if side is Ask {
                        assert(self.orderbook.spec_side(side.spec_opposite())
                            == self.orderbook.bids);
                    } else {
                        assert(self.orderbook.spec_side(side.spec_opposite())
                            == self.orderbook.asks);
                    }
                }
                proof {
                    assert(taker == spec_order_of_request(order_id, side, limit_price, quantity));
                    assert(!taker.spec_is_post_only());
                    assert(!taker.spec_is_fill_or_kill());
                    assert(taker.spec_is_immediate_or_cancel() == (limit_price is None));
                }
                let (taker_after, mut new_trades) = self.orderbook.match_order(
                    taker,
                    self.next_sequence,
                );
                let ghost ntv = new_trades@;
                proof {
                    lemma_order_count_nonneg(
                        self.orderbook.spec_side(side.spec_opposite()).levels@,
                    );
                    if taker_after.spec_remaining() > 0 && limit_price is Some {
                        assert(taker_after == spec_filled_taker(taker, ntv));
                    }
                }
                let _ = taker_after;
                self.next_sequence = self.next_sequence + (new_trades.len() as u64);
                self.trades.append(&mut new_trades);
                proof {
                    assert(self.trades@.skip(old_trades.len() as int) =~= ntv);
                    assert(self.trades@.subrange(0, old_trades.len() as int) =~= old_trades);
                    assert(self.trades@.skip(old_trades.len() as int) =~= self.trades@.subrange(
                        old_trades.len() as int,
                        self.trades@.len() as int,
                    ));
                    assert forall|k1: int, k2: int|
                        0 <= k1 < k2 < self.trades@.len() implies (
                    #[trigger] self.trades@[k1]).sequence < (
                    #[trigger] self.trades@[k2]).sequence by {
                        let n0 = old_trades.len() as int;
                        if k1 < n0 && k2 >= n0 {
                            assert(self.trades@[k1].sequence < seq0);
                            assert(self.trades@[k2].sequence == seq0 + (k2 - n0));
                        } else if k1 >= n0 {
                            assert(self.trades@[k1].sequence == seq0 + (k1 - n0));
                            assert(self.trades@[k2].sequence == seq0 + (k2 - n0));
                        }
                    }
                }
                Ok(())
            },
            OrderRequest::Cancel { order_id } => {
                let ghost b0 = self.orderbook;
                let cancelled = self.orderbook.remove(OrderId::new(order_id));
                proof {
                    if b0.index@.contains_key(order_id) {
                        let e = b0.index@[order_id];
                        let (i, j): (int, int) = choose|i: int, j: int|
                            {
                                &&& #[trigger] removed_at_shape(
                                    b0.spec_side(e.side),
                                    self.orderbook.spec_side(e.side),
                                    order_id,
                                    i,
                                    j,
                                )
                                &&& cancelled == Some(
                                    b0.spec_side(e.side).levels@[i].orders@[j].spec_cancelled(),
                                )
                            };
                        assert(removed_at_shape(
                            b0.spec_side(e.side),
                            self.orderbook.spec_side(e.side),
                            order_id,
                            i,
                            j,
                        ));
                    }
                }
                let _ = cancelled;
                Ok(())
            },
        }
    }

    /// The retained trades carry strictly increasing sequence numbers.
    pub proof fn lemma_sequence_monotone(&self, k1: int, k2: int)
        requires
            self.wf(),
            0 <= k1 < k2 < self.trades@.len(),
        ensures
            self.trades@[k1].sequence < self.trades@[k2].sequence,
    {
    }

    /// Return the trades emitted since the last drain, oldest first, and
    /// clear the buffer: no trade is lost or duplicated.
    pub fn drain_trades(&mut self) -> (r: Vec<Trade>)
        ensures
            r == old(self).trades,
            final(self).trades@.len() == 0,
            final(self).pair == old(self).pair,
            final(self).orderbook == old(self).orderbook,
            final(self).next_sequence == old(self).next_sequence,
    {
        let mut out: Vec<Trade> = Vec::new();
        core::mem::swap(&mut self.trades, &mut out);
        out
    }

    /// A read-only snapshot of both sides, best price first.
    pub fn book_view(&self) -> (r: (Vec<LevelView>, Vec<LevelView>))
        requires
            self.wf(),
        ensures
            side_viewed(self.orderbook.asks, r.0@),
            side_viewed(self.orderbook.bids, r.1@),
    {
        (self.orderbook.asks.side_view(), self.orderbook.bids.side_view())
    }
}

} // verus!
