use vstd::prelude::*;

use std::collections::HashMap;

use crate::order::Order;
use crate::order::OrderFeatures;
use crate::order::OrderId;
use crate::order::OrderPrice;
use crate::order::OrderQuantity;
use crate::order::OrderSide;
use crate::order::OrderStatus;

verus! {

broadcast use vstd::std_specs::hash::group_hash_axioms;

/// Whether an order may rest in a level of the given side and price:
/// a valid, still-working (Open or Partial) limit order of that side and
/// price with something left to fill.
pub open spec fn resting_at(o: Order, side: OrderSide, price: OrderPrice) -> bool {
    &&& o.wf()
    &&& o.side == side
    &&& o.spec_limit_price() == Some(price)
    &&& (o.status == OrderStatus::Open || o.status == OrderStatus::Partial)
    &&& o.filled_quantity < o.order_quantity
}

/// Maker priority between two prices of one side: the lowest ask and the
/// highest bid are served first.
pub open spec fn better_price(side: OrderSide, a: OrderPrice, b: OrderPrice) -> bool {
    match side {
        OrderSide::Ask => a < b,
        OrderSide::Bid => a > b,
    }
}

/// A FIFO queue of resting orders sharing one limit price on one side.
#[verifier::ext_equal]
pub struct PriceLevel {
    pub price: OrderPrice,
    pub side: OrderSide,
    pub orders: Vec<Order>,
}

impl PriceLevel {
    /// A level is never empty, holds only orders resting at its side and
    /// price, and never holds the same id twice.
    pub open spec fn wf(self) -> bool {
        &&& self.orders@.len() > 0
        &&& forall|j: int|
            0 <= j < self.orders@.len() ==> resting_at(
                #[trigger] self.orders@[j],
                self.side,
                self.price,
            )
        &&& forall|j1: int, j2: int|
            0 <= j1 < j2 < self.orders@.len() ==> #[trigger] self.orders@[j1].id
                != #[trigger] self.orders@[j2].id
    }

    pub open spec fn spec_contains_id(self, id: u64) -> bool {
        exists|j: int| 0 <= j < self.orders@.len() && #[trigger] self.orders@[j].id.0 == id
    }
}

/// One side of the book: levels ordered best price first (ascending for
/// asks, descending for bids).
#[verifier::ext_equal]
pub struct BookSide {
    pub side: OrderSide,
    pub levels: Vec<PriceLevel>,
}

impl BookSide {
    pub open spec fn wf(self) -> bool {
        &&& forall|i: int|
            0 <= i < self.levels@.len() ==> (#[trigger] self.levels@[i]).wf()
                && self.levels@[i].side == self.side
        &&& forall|i1: int, i2: int|
            0 <= i1 < i2 < self.levels@.len() ==> better_price(
                self.side,
                (#[trigger] self.levels@[i1]).price,
                (#[trigger] self.levels@[i2]).price,
            )
    }

    pub open spec fn spec_has_level(self, price: OrderPrice) -> bool {
        exists|i: int| 0 <= i < self.levels@.len() && (#[trigger] self.levels@[i]).price == price
    }

    pub open spec fn spec_contains_id(self, id: u64) -> bool {
        exists|i: int|
            0 <= i < self.levels@.len() && (#[trigger] self.levels@[i]).spec_contains_id(id)
    }

    /// Total count of resting orders on this side.
    pub open spec fn spec_order_count(self) -> int {
        order_count_rec(self.levels@)
    }

    pub fn new(side: OrderSide) -> (r: BookSide)
        ensures
            r.side == side,
            r.levels@.len() == 0,
            r.wf(),
    {
        BookSide { side, levels: Vec::new() }
    }

    /// The position where an order at `price` belongs: after every strictly
    /// better level, before everything else.
    fn find_slot(&self, price: OrderPrice) -> (k: usize)
        requires
            self.wf(),
        ensures
            k <= self.levels@.len(),
            forall|m: int|
                0 <= m < k ==> better_price(self.side, (#[trigger] self.levels@[m]).price, price),
            k < self.levels@.len() ==> !better_price(self.side, self.levels@[k as int].price, price),
    {
        let n = self.levels.len();
        let mut k: usize = 0;
        while k < n
            invariant
                self.wf(),
                n == self.levels@.len(),
                k <= n,
                forall|m: int|
                    0 <= m < k ==> better_price(
                        self.side,
                        (#[trigger] self.levels@[m]).price,
                        price,
                    ),
            decreases n - k,
        {
            let lp = self.levels[k].price;
            let cont = match self.side {
                OrderSide::Ask => lp < price,
                OrderSide::Bid => lp > price,
            };
            if !cont {
                return k;
            }
            k = k + 1;
        }
        k
    }

    /// Add a resting order: appended to the tail of its price level, the
    /// level itself created at its sorted position if it is new. Returns
    /// the index of the level the order now rests in.
    pub fn add_order(&mut self, o: Order) -> (i: usize)
        requires
            old(self).wf(),
            o.spec_limit_price() is Some,
            resting_at(o, old(self).side, o.spec_limit_price()->Some_0),
            !old(self).spec_contains_id(o.id.0),
        ensures
            final(self).wf(),
            final(self).side == old(self).side,
            i < final(self).levels@.len(),
            final(self).levels@[i as int].price == o.spec_limit_price()->Some_0,
            old(self).spec_has_level(o.spec_limit_price()->Some_0) ==> {
                &&& final(self).levels@.len() == old(self).levels@.len()
                &&& old(self).levels@[i as int].price == o.spec_limit_price()->Some_0
                &&& final(self).levels@[i as int].orders@ == old(self).levels@[
                    i as int
                ].orders@.push(o)
                &&& forall|m: int|
                    0 <= m < final(self).levels@.len() && m != i ==> final(self).levels@[m]
                        == old(self).levels@[m]
            },
            !old(self).spec_has_level(o.spec_limit_price()->Some_0) ==> {
                &&& final(self).levels@.len() == old(self).levels@.len() + 1
                &&& final(self).levels@[i as int].orders@ =~= seq![o]
                &&& forall|m: int| 0 <= m < i ==> final(self).levels@[m] == old(self).levels@[m]
                &&& forall|m: int|
                    i < m < final(self).levels@.len() ==> final(self).levels@[m] == old(
                        self,
                    ).levels@[m - 1]
            },
    {
        let price = match o.limit_price() {
            Some(p) => p,
            None => {
                // unreachable: the precondition makes the order a limit order
                proof {
                    assert(false);
                }
                0
            },
        };
        let k = self.find_slot(price);
        if k < self.levels.len() && self.levels[k].price == price {
            proof {
                assert(old(self).levels@[k as int].spec_contains_id(o.id.0) == false);
            }
            let level = &mut self.levels[k];
            level.orders.push(o);
            proof {
                assert forall|i1: int, i2: int|
                    0 <= i1 < i2 < self.levels@.len() implies better_price(
                    self.side,
                    (#[trigger] self.levels@[i1]).price,
                    (#[trigger] self.levels@[i2]).price,
                ) by {
                    assert(old(self).levels@[i1].price == self.levels@[i1].price);
                }
            }
            k
        } else {
            proof {
                if old(self).spec_has_level(price) {
                    let w = choose|i: int|
                        0 <= i < old(self).levels@.len() && (#[trigger] old(
                            self,
                        ).levels@[i]).price == price;
                    if w < k {
                        assert(better_price(self.side, price, price));
                    }
                    assert(false);
                }
            }
            let level = PriceLevel { price, side: o.side(), orders: vec![o] };
            self.levels.insert(k, level);
            k
        }
    }
}

/// After removing the order at position `(i, j)`: the level lost that one
/// order, or disappeared entirely if the order was alone in it; nothing
/// else moved.
pub open spec fn removed_at_shape(b0: BookSide, b1: BookSide, id: u64, i: int, j: int) -> bool {
    &&& 0 <= i < b0.levels@.len()
    &&& 0 <= j < b0.levels@[i].orders@.len()
    &&& b0.levels@[i].orders@[j].id.0 == id
    &&& if b0.levels@[i].orders@.len() == 1 {
        &&& b1.levels@.len() == b0.levels@.len() - 1
        &&& forall|m: int| 0 <= m < i ==> b1.levels@[m] == b0.levels@[m]
        &&& forall|m: int| i <= m < b1.levels@.len() ==> b1.levels@[m] == b0.levels@[m + 1]
    } else {
        &&& b1.levels@.len() == b0.levels@.len()
        &&& b1.levels@[i].price == b0.levels@[i].price
        &&& b1.levels@[i].side == b0.levels@[i].side
        &&& b1.levels@[i].orders@ == b0.levels@[i].orders@.remove(j)
        &&& forall|m: int|
            0 <= m < b1.levels@.len() && m != i ==> b1.levels@[m] == b0.levels@[m]
    }
}

impl PriceLevel {
    /// Position of the order with this id in the level queue.
    fn position_of(&self, id: u64) -> (r: usize)
        requires
            self.spec_contains_id(id),
        ensures
            r < self.orders@.len(),
            self.orders@[r as int].id.0 == id,
    {
        let n = self.orders.len();
        let mut r: usize = 0;
        while r < n
            invariant
                n == self.orders@.len(),
                r <= n,
                self.spec_contains_id(id),
                forall|m: int| 0 <= m < r ==> (#[trigger] self.orders@[m]).id.0 != id,
            decreases n - r,
        {
            if self.orders[r].id.0 == id {
                return r;
            }
            r = r + 1;
        }
        proof {
            let j = choose|j: int|
                0 <= j < self.orders@.len() && (#[trigger] self.orders@[j]).id.0 == id;
            assert(false);
        }
        0
    }
}

impl BookSide {
    /// The (unique) level holding this price.
    fn find_level(&self, price: OrderPrice) -> (r: usize)
        requires
            self.wf(),
            self.spec_has_level(price),
        ensures
            r < self.levels@.len(),
            self.levels@[r as int].price == price,
    {
        let n = self.levels.len();
        let mut r: usize = 0;
        while r < n
            invariant
                n == self.levels@.len(),
                r <= n,
                self.spec_has_level(price),
                forall|m: int| 0 <= m < r ==> (#[trigger] self.levels@[m]).price != price,
            decreases n - r,
        {
            if self.levels[r].price == price {
                return r;
            }
            r = r + 1;
        }
        proof {
            let i = choose|i: int|
                0 <= i < self.levels@.len() && (#[trigger] self.levels@[i]).price == price;
            assert(false);
        }
        0
    }

    /// Remove the order with this id from the level at this price; the
    /// level is dropped when it empties. Returns the removed order.
    fn remove_by_id(&mut self, price: OrderPrice, id: u64) -> (removed: Order)
        requires
            old(self).wf(),
            exists|i: int|
                0 <= i < old(self).levels@.len() && (#[trigger] old(self).levels@[i]).price
                    == price && old(self).levels@[i].spec_contains_id(id),
        ensures
            final(self).wf(),
            final(self).side == old(self).side,
            exists|i: int, j: int|
                {
                    &&& #[trigger] removed_at_shape(*old(self), *final(self), id, i, j)
                    &&& old(self).levels@[i].price == price
                    &&& removed == old(self).levels@[i].orders@[j]
                },
    {
        let i = self.find_level(price);
        proof {
            let w = choose|w: int|
                0 <= w < self.levels@.len() && (#[trigger] self.levels@[w]).price == price
                    && self.levels@[w].spec_contains_id(id);
            if w < (i as int) {
                assert(better_price(self.side, price, price));
            }
            if (i as int) < w {
                assert(better_price(self.side, price, price));
            }
        }
        let j = self.levels[i].position_of(id);
        let removed = self.levels[i].orders[j];
        if self.levels[i].orders.len() == 1 {
            self.levels.remove(i);
            proof {
                assert forall|i1: int, i2: int|
                    0 <= i1 < i2 < self.levels@.len() implies better_price(
                    self.side,
                    (#[trigger] self.levels@[i1]).price,
                    (#[trigger] self.levels@[i2]).price,
                ) by {
                    if i2 < i as int {
                    } else if i1 < i as int {
                        assert(self.levels@[i2] == old(self).levels@[i2 + 1]);
                    } else {
                        assert(self.levels@[i1] == old(self).levels@[i1 + 1]);
                        assert(self.levels@[i2] == old(self).levels@[i2 + 1]);
                    }
                }
                assert(removed_at_shape(*old(self), *self, id, i as int, j as int));
            }
        } else {
            let level = &mut self.levels[i];
            level.orders.remove(j);
            proof {
                let l0 = old(self).levels@[i as int];
                let l1 = self.levels@[i as int];
                assert(l1.orders@ == l0.orders@.remove(j as int));
                assert forall|m: int|
                    0 <= m < l1.orders@.len() implies resting_at(
                    #[trigger] l1.orders@[m],
                    l1.side,
                    l1.price,
                ) by {
                    if m < j as int {
                        assert(l1.orders@[m] == l0.orders@[m]);
                    } else {
                        assert(l1.orders@[m] == l0.orders@[m + 1]);
                    }
                }
                assert forall|j1: int, j2: int|
                    0 <= j1 < j2 < l1.orders@.len() implies #[trigger] l1.orders@[j1].id
                    != #[trigger] l1.orders@[j2].id by {
                    if j2 < j as int {
                    } else if j1 < j as int {
                        assert(l1.orders@[j2] == l0.orders@[j2 + 1]);
                    } else {
                        assert(l1.orders@[j1] == l0.orders@[j1 + 1]);
                        assert(l1.orders@[j2] == l0.orders@[j2 + 1]);
                    }
                }
                assert forall|i1: int, i2: int|
                    0 <= i1 < i2 < self.levels@.len() implies better_price(
                    self.side,
                    (#[trigger] self.levels@[i1]).price,
                    (#[trigger] self.levels@[i2]).price,
                ) by {
                    assert(self.levels@[i1].price == old(self).levels@[i1].price);
                    assert(self.levels@[i2].price == old(self).levels@[i2].price);
                }
                assert(removed_at_shape(*old(self), *self, id, i as int, j as int));
            }
        }
        removed
    }
}

impl Orderbook {
    /// Whether an order with this id currently rests in the book.
    pub fn contains_order(&self, id: u64) -> (r: bool)
        ensures
            r == self.index@.contains_key(id),
    {
        self.index.contains_key(&id)
    }

    /// Cancel by id. An unknown id is a silent no-op that leaves the book
    /// identical; a known id leaves the book without the order (and
    /// without its level, if alone), and returns the cancelled order.
    pub fn remove(&mut self, id: OrderId) -> (r: Option<Order>)
        requires
            old(self).wf(),
        ensures
            final(self).wf(),
            !old(self).index@.contains_key(id.0) ==> r is None && *final(self) == *old(self),
            old(self).index@.contains_key(id.0) ==> {
                let e = old(self).index@[id.0];
                &&& final(self).index@ == old(self).index@.remove(id.0)
                &&& final(self).spec_side(e.side.spec_opposite()) == old(self).spec_side(
                    e.side.spec_opposite(),
                )
                &&& final(self).spec_side(e.side).side == e.side
                &&& exists|i: int, j: int|
                    {
                        &&& #[trigger] removed_at_shape(
                            old(self).spec_side(e.side),
                            final(self).spec_side(e.side),
                            id.0,
                            i,
                            j,
                        )
                        &&& r == Some(
                            old(self).spec_side(e.side).levels@[i].orders@[j].spec_cancelled(),
                        )
                    }
            },
    {
        let e = match self.index.get(&id.0) {
            Some(e) => *e,
            None => {
                return None;
            },
        };
        proof {
            assert(old(self).entry_ok(id.0, e));
            let (i0, j0) = choose|i0: int, j0: int| old(self).pos_ok(id.0, e, i0, j0);
            assert(old(self).pos_ok(id.0, e, i0, j0));
            assert(old(self).spec_side(e.side).levels@[i0].spec_contains_id(id.0));
        }
        let ghost b0 = *old(self);
        let removed;
        match e.side {
            OrderSide::Ask => {
                removed = self.asks.remove_by_id(e.price, id.0);
            },
            OrderSide::Bid => {
                removed = self.bids.remove_by_id(e.price, id.0);
            },
        }
        self.index.remove(&id.0);
        proof {
            self.lemma_restore_after_removal(b0, id.0, e);
        }
        let mut cancelled = removed;
        cancelled.cancel();
        Some(cancelled)
    }

    /// Re-establish the invariant after one side lost the order at one
    /// position and the index lost its entry.
    proof fn lemma_restore_after_removal(self, b0: Orderbook, id: u64, e: IndexEntry)
        requires
            b0.wf(),
            b0.index@.contains_key(id),
            e == b0.index@[id],
            self.spec_side(e.side.spec_opposite()) == b0.spec_side(e.side.spec_opposite()),
            self.asks.side == b0.asks.side,
            self.bids.side == b0.bids.side,
            self.spec_side(e.side).wf(),
            exists|i: int, j: int|
                #[trigger] removed_at_shape(
                    b0.spec_side(e.side),
                    self.spec_side(e.side),
                    id,
                    i,
                    j,
                ),
            self.index@ == b0.index@.remove(id),
        ensures
            self.wf(),
    {
        let s0 = b0.spec_side(e.side);
        let s1 = self.spec_side(e.side);
        let (i, j) = choose|i: int, j: int| removed_at_shape(s0, s1, id, i, j);
        assert(removed_at_shape(s0, s1, id, i, j));
        let dropped = s0.levels@[i].orders@.len() == 1;
        assert(b0.pos_ok(id, e, i, j)) by {
            assert(b0.index@[id] == (IndexEntry { side: e.side, price: s0.levels@[i].price }));
        }
        // every surviving index key still names a real position
        assert forall|id2: u64| #[trigger] self.index@.contains_key(id2) implies self.entry_ok(
            id2,
            self.index@[id2],
        ) by {
            let e2 = b0.index@[id2];
            assert(b0.entry_ok(id2, e2));
            let (i0, j0) = choose|i0: int, j0: int| b0.pos_ok(id2, e2, i0, j0);
            assert(b0.pos_ok(id2, e2, i0, j0));
            if e2.side != e.side {
                assert(self.pos_ok(id2, e2, i0, j0));
            } else {
                assert(b0.at_pos(e2, i0, j0).id.0 == id2);
                if i0 == i && j0 == j {
                    // that position held `id`, which was removed from the index
                    assert(id2 == id);
                    assert(false);
                } else {
                    b0.lemma_id_unique(id2, e2, i0, j0, e2, i0, j0);
                    if dropped {
                        assert(i0 != i);
                        if i0 < i {
                            assert(self.pos_ok(id2, e2, i0, j0));
                        } else {
                            assert(s1.levels@[i0 - 1] == s0.levels@[i0]);
                            assert(self.pos_ok(id2, e2, i0 - 1, j0));
                        }
                    } else {
                        if i0 != i {
                            assert(self.pos_ok(id2, e2, i0, j0));
                        } else if j0 < j {
                            assert(s1.levels@[i].orders@[j0] == s0.levels@[i].orders@[j0]);
                            assert(self.pos_ok(id2, e2, i0, j0));
                        } else {
                            assert(s1.levels@[i].orders@[j0 - 1] == s0.levels@[i].orders@[j0]);
                            assert(self.pos_ok(id2, e2, i0, j0 - 1));
                        }
                    }
                }
            }
        }
        // every surviving order is still indexed
        assert forall|s: OrderSide, i2: int, j2: int|
            (0 <= i2 < self.spec_side(s).levels@.len() && 0 <= j2 < self.spec_side(
                s,
            ).levels@[i2].orders@.len()) implies {
            let o = #[trigger] self.spec_side(s).levels@[i2].orders@[j2];
            &&& self.index@.contains_key(o.id.0)
            &&& self.index@[o.id.0] == (IndexEntry {
                side: s,
                price: self.spec_side(s).levels@[i2].price,
            })
        } by {
            let o = self.spec_side(s).levels@[i2].orders@[j2];
            if s != e.side {
                assert(b0.spec_side(s).levels@[i2].orders@[j2] == o);
                assert(o.id.0 != id) by {
                    if o.id.0 == id {
                        assert(b0.index@[id] == (IndexEntry {
                            side: s,
                            price: b0.spec_side(s).levels@[i2].price,
                        }));
                    }
                }
            } else {
                let (oi, oj): (int, int) = if dropped {
                    if i2 < i {
                        (i2, j2)
                    } else {
                        (i2 + 1, j2)
                    }
                } else {
                    if i2 != i {
                        (i2, j2)
                    } else if j2 < j {
                        (i2, j2)
                    } else {
                        (i2, j2 + 1)
                    }
                };
                assert(b0.spec_side(s).levels@[oi].orders@[oj] == o);
                assert(b0.spec_side(s).levels@[oi].price == self.spec_side(s).levels@[i2].price);
                assert(o.id.0 != id) by {
                    if o.id.0 == id {
                        let e2 = (IndexEntry { side: s, price: b0.spec_side(s).levels@[oi].price });
                        assert(b0.index@[id] == e2);
                        b0.lemma_id_unique(id, e2, oi, oj, e, i, j);
                        assert(false);
                    }
                }
            }
        }
    }
}

/// Count of orders in a sequence of levels, front first.
pub open spec fn order_count_rec(levels: Seq<PriceLevel>) -> int
    decreases levels.len(),
{
    if levels.len() == 0 {
        0
    } else {
        levels[0].orders@.len() + order_count_rec(levels.drop_first())
    }
}

/// Index payload: where a resting order stands, for O(1) cancel.
#[derive(Clone, Copy, Debug, PartialEq, Eq, Structural)]
pub struct IndexEntry {
    pub side: OrderSide,
    pub price: OrderPrice,
}

/// The resting book: both sides plus the id index, kept consistent.
pub struct Orderbook {
    pub asks: BookSide,
    pub bids: BookSide,
    pub index: HashMap<u64, IndexEntry>,
}

impl Orderbook {
    pub open spec fn spec_side(self, s: OrderSide) -> BookSide {
        match s {
            OrderSide::Ask => self.asks,
            OrderSide::Bid => self.bids,
        }
    }

    pub open spec fn at_pos(self, e: IndexEntry, i: int, j: int) -> Order {
        self.spec_side(e.side).levels@[i].orders@[j]
    }

    /// The entry names a real position: a level of its side at its price,
    /// holding an order with this id.
    pub open spec fn pos_ok(self, id: u64, e: IndexEntry, i: int, j: int) -> bool {
        let bs = self.spec_side(e.side);
        &&& 0 <= i < bs.levels@.len()
        &&& bs.levels@[i].price == e.price
        &&& 0 <= j < bs.levels@[i].orders@.len()
        &&& bs.levels@[i].orders@[j].id.0 == id
    }

    pub open spec fn entry_ok(self, id: u64, e: IndexEntry) -> bool {
        exists|i: int, j: int| self.pos_ok(id, e, i, j)
    }

    /// Every resting order is indexed, under its side and price.
    pub open spec fn index_complete(self) -> bool {
        forall|s: OrderSide, i: int, j: int|
            #![trigger self.spec_side(s).levels@[i].orders@[j]]
            (0 <= i < self.spec_side(s).levels@.len() && 0 <= j < self.spec_side(
                s,
            ).levels@[i].orders@.len()) ==> {
                let o = self.spec_side(s).levels@[i].orders@[j];
                &&& self.index@.contains_key(o.id.0)
                &&& self.index@[o.id.0] == (IndexEntry {
                    side: s,
                    price: self.spec_side(s).levels@[i].price,
                })
            }
    }

    /// The book invariant: both sides well formed, and the index keys are
    /// exactly the ids of resting orders, each entry naming its position.
    pub open spec fn wf(self) -> bool {
        &&& self.asks.side == OrderSide::Ask
        &&& self.bids.side == OrderSide::Bid
        &&& self.asks.wf()
        &&& self.bids.wf()
        &&& forall|id: u64|
            #[trigger] self.index@.contains_key(id) ==> self.entry_ok(id, self.index@[id])
        &&& self.index_complete()
    }

    /// In a well-formed book an id rests in at most one position.
    pub proof fn lemma_id_unique(
        self,
        id: u64,
        e1: IndexEntry,
        i1: int,
        j1: int,
        e2: IndexEntry,
        i2: int,
        j2: int,
    )
        requires
            self.wf(),
            self.pos_ok(id, e1, i1, j1),
            self.pos_ok(id, e2, i2, j2),
        ensures
            e1.side == e2.side,
            e1.price == e2.price,
            i1 == i2,
            j1 == j2,
    {
        let o1 = self.at_pos(e1, i1, j1);
        let o2 = self.at_pos(e2, i2, j2);
        assert(self.index@[id] == (IndexEntry {
            side: e1.side,
            price: self.spec_side(e1.side).levels@[i1].price,
        }));
        assert(self.index@[id] == (IndexEntry {
            side: e2.side,
            price: self.spec_side(e2.side).levels@[i2].price,
        }));
        if i1 < i2 {
            assert(better_price(
                self.spec_side(e1.side).side,
                self.spec_side(e1.side).levels@[i1].price,
                self.spec_side(e1.side).levels@[i2].price,
            ));
        }
        if i2 < i1 {
            assert(better_price(
                self.spec_side(e1.side).side,
                self.spec_side(e1.side).levels@[i2].price,
                self.spec_side(e1.side).levels@[i1].price,
            ));
        }
        if j1 != j2 {
            assert(self.spec_side(e1.side).levels@[i1].wf());
        }
    }

    /// A missing index key means the id rests nowhere.
    pub proof fn lemma_unindexed_id_absent(self, id: u64)
        requires
            self.wf(),
            !self.index@.contains_key(id),
        ensures
            !self.asks.spec_contains_id(id),
            !self.bids.spec_contains_id(id),
    {
        if self.asks.spec_contains_id(id) {
            let i = choose|i: int|
                0 <= i < self.asks.levels@.len() && (#[trigger] self.asks.levels@[
                    i
                ]).spec_contains_id(id);
            let j = choose|j: int|
                0 <= j < self.asks.levels@[i].orders@.len() && (#[trigger] self.asks.levels@[
                    i
                ].orders@[j]).id.0 == id;
            assert(self.spec_side(OrderSide::Ask).levels@[i].orders@[j].id.0 == id);
            assert(false);
        }
        if self.bids.spec_contains_id(id) {
            let i = choose|i: int|
                0 <= i < self.bids.levels@.len() && (#[trigger] self.bids.levels@[
                    i
                ]).spec_contains_id(id);
            let j = choose|j: int|
                0 <= j < self.bids.levels@[i].orders@.len() && (#[trigger] self.bids.levels@[
                    i
                ].orders@[j]).id.0 == id;
            assert(self.spec_side(OrderSide::Bid).levels@[i].orders@[j].id.0 == id);
            assert(false);
        }
    }

    /// Index and book name the same population: in a well-formed book an
    /// id is an index key exactly when an order with that id rests on one
    /// of the two sides.
    pub proof fn lemma_index_book_bijection(self, id: u64)
        requires
            self.wf(),
        ensures
            self.index@.contains_key(id) <==> (self.asks.spec_contains_id(id)
                || self.bids.spec_contains_id(id)),
    {
        if self.index@.contains_key(id) {
            let e = self.index@[id];
            assert(self.entry_ok(id, e));
            let (i, j) = choose|i: int, j: int| self.pos_ok(id, e, i, j);
            assert(self.pos_ok(id, e, i, j));
            match e.side {
                OrderSide::Ask => {
                    assert(self.asks.levels@[i].spec_contains_id(id));
                },
                OrderSide::Bid => {
                    assert(self.bids.levels@[i].spec_contains_id(id));
                },
            }
        } else {
            self.lemma_unindexed_id_absent(id);
        }
    }

    pub fn new() -> (r: Orderbook)
        ensures
            r.wf(),
            r.asks.levels@.len() == 0,
            r.bids.levels@.len() == 0,
            r.index@ =~= Map::<u64, IndexEntry>::empty(),
    {
        Orderbook {
            asks: BookSide::new(OrderSide::Ask),
            bids: BookSide::new(OrderSide::Bid),
            index: HashMap::new(),
        }
    }

    /// Rest a working limit order in its side and record it in the index.
    pub fn book_order(&mut self, o: Order)
        requires
            old(self).wf(),
            o.spec_limit_price() is Some,
            resting_at(o, o.side, o.spec_limit_price()->Some_0),
            !old(self).index@.contains_key(o.id.0),
        ensures
            final(self).wf(),
            final(self).index@ == old(self).index@.insert(
                o.id.0,
                (IndexEntry { side: o.side, price: o.spec_limit_price()->Some_0 }),
            ),
            final(self).spec_side(o.side.spec_opposite()) == old(self).spec_side(
                o.side.spec_opposite(),
            ),
            booked_side_shape(old(self).spec_side(o.side), final(self).spec_side(o.side), o),
    {
        proof {
            old(self).lemma_unindexed_id_absent(o.id.0);
        }
        let entry = IndexEntry { side: o.side(), price: match o.limit_price() {
            Some(p) => p,
            None => {
                // unreachable: the precondition makes the order a limit order
                proof {
                    assert(false);
                }
                0
            },
        } };
        let ghost b0 = *old(self);
        match o.side() {
            OrderSide::Ask => {
                let i = self.asks.add_order(o);
                proof {
                    assert(booked_at_shape(b0.asks, self.asks, o, i as int));
                }
            },
            OrderSide::Bid => {
                let i = self.bids.add_order(o);
                proof {
                    assert(booked_at_shape(b0.bids, self.bids, o, i as int));
                }
            },
        }
        self.index.insert(o.id.0, entry);
        proof {
            assert(booked_side_shape(b0.spec_side(o.side), self.spec_side(o.side), o));
            self.lemma_restore_after_booking(b0, o);
        }
    }

    /// Re-establish the invariant after one side gained `o` at its level
    /// and the index gained the matching entry.
    proof fn lemma_restore_after_booking(self, b0: Orderbook, o: Order)
        requires
            b0.wf(),
            o.spec_limit_price() is Some,
            resting_at(o, o.side, o.spec_limit_price()->Some_0),
            !b0.index@.contains_key(o.id.0),
            self.spec_side(o.side.spec_opposite()) == b0.spec_side(o.side.spec_opposite()),
            self.asks.side == b0.asks.side,
            self.bids.side == b0.bids.side,
            self.spec_side(o.side).wf(),
            booked_side_shape(b0.spec_side(o.side), self.spec_side(o.side), o),
            self.index@ == b0.index@.insert(
                o.id.0,
                (IndexEntry { side: o.side, price: o.spec_limit_price()->Some_0 }),
            ),
        ensures
            self.wf(),
    {
        let p = o.spec_limit_price()->Some_0;
        let s0 = b0.spec_side(o.side);
        let s1 = self.spec_side(o.side);
        let i = choose|i: int| booked_at_shape(s0, s1, o, i);
        assert(booked_at_shape(s0, s1, o, i));
        // every index key names a real position
        assert forall|id: u64| #[trigger] self.index@.contains_key(id) implies self.entry_ok(
            id,
            self.index@[id],
        ) by {
            if id == o.id.0 {
                let e = (IndexEntry { side: o.side, price: p });
                if s0.spec_has_level(p) {
                    let j = s0.levels@[i].orders@.len() as int;
                    assert(self.pos_ok(id, e, i, j));
                } else {
                    assert(self.pos_ok(id, e, i, 0));
                }
            } else {
                let e = b0.index@[id];
                assert(b0.entry_ok(id, e));
                let (i0, j0) = choose|i0: int, j0: int| b0.pos_ok(id, e, i0, j0);
                assert(b0.pos_ok(id, e, i0, j0));
                if e.side != o.side {
                    assert(self.pos_ok(id, e, i0, j0));
                } else {
                    if s0.spec_has_level(p) {
                        assert(self.pos_ok(id, e, i0, j0));
                    } else {
                        if i0 < i {
                            assert(self.pos_ok(id, e, i0, j0));
                        } else {
                            assert(s1.levels@[i0 + 1] == s0.levels@[i0]);
                            assert(self.pos_ok(id, e, i0 + 1, j0));
                        }
                    }
                }
            }
        }
        // every resting order is indexed
        assert forall|s: OrderSide, i2: int, j2: int|
            (0 <= i2 < self.spec_side(s).levels@.len() && 0 <= j2 < self.spec_side(
                s,
            ).levels@[i2].orders@.len()) implies {
            let ord = #[trigger] self.spec_side(s).levels@[i2].orders@[j2];
            &&& self.index@.contains_key(ord.id.0)
            &&& self.index@[ord.id.0] == (IndexEntry {
                side: s,
                price: self.spec_side(s).levels@[i2].price,
            })
        } by {
            let ord = self.spec_side(s).levels@[i2].orders@[j2];
            if s != o.side {
                assert(b0.spec_side(s).levels@[i2].orders@[j2] == ord);
                assert(ord.id.0 != o.id.0) by {
                    if ord.id.0 == o.id.0 {
                        assert(b0.index@.contains_key(ord.id.0));
                    }
                }
            } else {
                if s0.spec_has_level(p) {
                    if i2 == i && j2 == s0.levels@[i].orders@.len() {
                        assert(ord == o);
                    } else {
                        assert(b0.spec_side(s).levels@[i2].orders@[j2] == ord);
                        assert(ord.id.0 != o.id.0) by {
                            if ord.id.0 == o.id.0 {
                                assert(b0.index@.contains_key(ord.id.0));
                            }
                        }
                        assert(self.spec_side(s).levels@[i2].price == b0.spec_side(
                            s,
                        ).levels@[i2].price);
                    }
                } else {
                    if i2 == i {
                        assert(ord == o);
                    } else if i2 < i {
                        assert(b0.spec_side(s).levels@[i2].orders@[j2] == ord);
                        assert(ord.id.0 != o.id.0) by {
                            if ord.id.0 == o.id.0 {
                                assert(b0.index@.contains_key(ord.id.0));
                            }
                        }
                    } else {
                        assert(s1.levels@[i2] == s0.levels@[i2 - 1]);
                        assert(b0.spec_side(s).levels@[i2 - 1].orders@[j2] == ord);
                        assert(ord.id.0 != o.id.0) by {
                            if ord.id.0 == o.id.0 {
                                assert(b0.index@.contains_key(ord.id.0));
                            }
                        }
                    }
                }
            }
        }
    }
}

/// After booking `o`, its side either extended the level at `o`'s price
/// (index `i`) by one tail order, or gained a fresh single-order level at
/// the sorted position `i`; nothing else moved.
pub open spec fn booked_at_shape(b0: BookSide, b1: BookSide, o: Order, i: int) -> bool {
    let p = o.spec_limit_price()->Some_0;
    if b0.spec_has_level(p) {
        &&& 0 <= i < b0.levels@.len()
        &&& b0.levels@[i].price == p
        &&& b1.levels@.len() == b0.levels@.len()
        &&& b1.levels@[i].price == p
        &&& b1.levels@[i].side == b0.levels@[i].side
        &&& b1.levels@[i].orders@ == b0.levels@[i].orders@.push(o)
        &&& forall|m: int|
            0 <= m < b1.levels@.len() && m != i ==> b1.levels@[m] == b0.levels@[m]
    } else {
        &&& 0 <= i <= b0.levels@.len()
        &&& b1.levels@.len() == b0.levels@.len() + 1
        &&& b1.levels@[i].price == p
        &&& b1.levels@[i].side == b0.side
        &&& b1.levels@[i].orders@ =~= seq![o]
        &&& forall|m: int| 0 <= m < i ==> b1.levels@[m] == b0.levels@[m]
        &&& forall|m: int| i < m < b1.levels@.len() ==> b1.levels@[m] == b0.levels@[m - 1]
    }
}

pub open spec fn booked_side_shape(b0: BookSide, b1: BookSide, o: Order) -> bool {
    exists|i: int| booked_at_shape(b0, b1, o, i)
}

pub proof fn lemma_order_count_nonneg(levels: Seq<PriceLevel>)
    ensures
        order_count_rec(levels) >= 0,
    decreases levels.len(),
{
    if levels.len() > 0 {
        lemma_order_count_nonneg(levels.drop_first());
    }
}

/// One execution: taker and maker ids, the maker's resting price, the
/// traded quantity, and the emission sequence number.
#[derive(Clone, Copy, Debug, PartialEq, Eq, Structural)]
pub struct Trade {
    pub taker_id: OrderId,
    pub maker_id: OrderId,
    pub price: OrderPrice,
    pub quantity: OrderQuantity,
    pub sequence: u64,
}

/// Total quantity traded over a list of trades.
pub open spec fn trades_qty_sum(ts: Seq<Trade>) -> int
    decreases ts.len(),
{
    if ts.len() == 0 {
        0
    } else {
        trades_qty_sum(ts.drop_last()) + ts.last().quantity
    }
}

/// Total remaining quantity of a queue of orders.
pub open spec fn level_qty_rec(orders: Seq<Order>) -> int
    decreases orders.len(),
{
    if orders.len() == 0 {
        0
    } else {
        orders[0].spec_remaining() + level_qty_rec(orders.drop_first())
    }
}

/// Quantity available to `taker` on the opposing side at prices it can
/// cross, best level first.
pub open spec fn crossing_avail_rec(levels: Seq<PriceLevel>, taker: Order) -> int
    decreases levels.len(),
{
    if levels.len() == 0 {
        0
    } else if !taker.spec_price_crosses(levels[0].price) {
        0
    } else {
        level_qty_rec(levels[0].orders@) + crossing_avail_rec(levels.drop_first(), taker)
    }
}

/// Exact-decimal addition, capped at the largest representable value.
fn sat_add(a: OrderQuantity, b: OrderQuantity) -> (r: OrderQuantity)
    ensures
        r as int == if a + b > u128::MAX as int {
            u128::MAX as int
        } else {
            a + b
        },
{
    if a > u128::MAX - b {
        u128::MAX
    } else {
        a + b
    }
}

impl BookSide {
    /// Whether the quantity available to `taker` at prices it can cross
    /// reaches `need`. Read-only: this is the fill-or-kill precheck.
    pub fn crossing_available_at_least(&self, taker: &Order, need: OrderQuantity) -> (enough:
        bool)
        requires
            self.wf(),
        ensures
            enough == (crossing_avail_rec(self.levels@, *taker) >= need),
    {
        let n = self.levels.len();
        let mut acc: OrderQuantity = 0;
        let ghost mut true_sum: int = 0;
        let mut i: usize = 0;
        let mut stopped: bool = false;
        proof {
            assert(self.levels@.skip(0) =~= self.levels@);
        }
        while !stopped && i < n
            invariant
                self.wf(),
                n == self.levels@.len(),
                i <= n,
                true_sum >= 0,
                acc as int == if true_sum > u128::MAX as int {
                    u128::MAX as int
                } else {
                    true_sum
                },
                !stopped ==> crossing_avail_rec(self.levels@, *taker) == true_sum
                    + crossing_avail_rec(self.levels@.skip(i as int), *taker),
                stopped ==> crossing_avail_rec(self.levels@, *taker) == true_sum,
            decreases n - i, (if stopped { 0int } else { 1int }),
        {
            let ghost pre = self.levels@.skip(i as int);
            proof {
                assert(pre[0] == self.levels@[i as int]);
            }
            if !taker.crosses_price(self.levels[i].price) {
                proof {
                    assert(crossing_avail_rec(pre, *taker) == 0);
                }
                stopped = true;
            } else {
                let level = &self.levels[i];
                let m = level.orders.len();
                let ghost base = true_sum;
                let mut j: usize = 0;
                proof {
                    assert(level.orders@.skip(0) =~= level.orders@);
                }
                while j < m
                    invariant
                        level.wf(),
                        m == level.orders@.len(),
                        j <= m,
                        base >= 0,
                        true_sum >= base,
                        acc as int == if true_sum > u128::MAX as int {
                            u128::MAX as int
                        } else {
                            true_sum
                        },
                        true_sum == base + level_qty_rec(level.orders@) - level_qty_rec(
                            level.orders@.skip(j as int),
                        ),
                    decreases m - j,
                {
                    proof {
                        let lpre = level.orders@.skip(j as int);
                        assert(lpre[0] == level.orders@[j as int]);
                        assert(lpre.drop_first() =~= level.orders@.skip(j as int + 1));
                        assert(level.orders@[j as int].wf());
                    }
                    acc = sat_add(acc, level.orders[j].remaining());
                    proof {
                        true_sum = true_sum + level.orders@[j as int].spec_remaining();
                    }
                    j = j + 1;
                }
                proof {
                    assert(level.orders@.skip(m as int) =~= Seq::<Order>::empty());
                    assert(level_qty_rec(level.orders@.skip(m as int)) == 0);
                    assert(pre.drop_first() =~= self.levels@.skip(i as int + 1));
                }
                i = i + 1;
            }
        }
        proof {
            if !stopped {
                assert(self.levels@.skip(n as int) =~= Seq::<PriceLevel>::empty());
                assert(crossing_avail_rec(self.levels@.skip(n as int), *taker) == 0);
            }
            assert(crossing_avail_rec(self.levels@, *taker) == true_sum);
        }
        acc >= need
    }
}

impl BookSide {
    /// Execute `q` against the front order of the best level: the oldest
    /// order at the best price. A completed front order is evicted (and
    /// its level dropped when it empties); a partial fill is written back
    /// in place. Returns the evicted order's id, if any.
    fn fill_front_order(&mut self, q: OrderQuantity) -> (completed: Option<u64>)
        requires
            old(self).wf(),
            old(self).levels@.len() > 0,
            0 < q <= old(self).levels@[0].orders@[0].spec_remaining(),
        ensures
            final(self).wf(),
            final(self).side == old(self).side,
            ({
                let front = old(self).levels@[0].orders@[0];
                match completed {
                    Some(id) => {
                        &&& id == front.id.0
                        &&& q == front.spec_remaining()
                        &&& removed_at_shape(*old(self), *final(self), id, 0, 0)
                    },
                    None => {
                        &&& q < front.spec_remaining()
                        &&& final(self).levels@.len() == old(self).levels@.len()
                        &&& final(self).levels@[0].price == old(self).levels@[0].price
                        &&& final(self).levels@[0].side == old(self).levels@[0].side
                        &&& final(self).levels@[0].orders@ == old(self).levels@[
                            0
                        ].orders@.update(
                            0,
                            (Order {
                                filled_quantity: (front.filled_quantity + q) as OrderQuantity,
                                status: OrderStatus::Partial,
                                ..front
                            }),
                        )
                        &&& forall|m: int|
                            0 < m < final(self).levels@.len() ==> final(self).levels@[m] == old(
                                self,
                            ).levels@[m]
                    },
                }
            }),
            final(self).spec_order_count() == old(self).spec_order_count() - (
            if completed is Some {
                1int
            } else {
                0int
            }),
            final(self).levels@.len() > 0 ==> (final(self).levels@[0].price == old(
                self,
            ).levels@[0].price || better_price(
                old(self).side,
                old(self).levels@[0].price,
                final(self).levels@[0].price,
            )),
    {
        proof {
            assert(old(self).levels@[0].wf());
        }
        let front = self.levels[0].orders[0];
        let rem = front.remaining();
        if q == rem {
            if self.levels[0].orders.len() == 1 {
                self.levels.remove(0);
                proof {
                    assert forall|i1: int, i2: int|
                        0 <= i1 < i2 < self.levels@.len() implies better_price(
                        self.side,
                        (#[trigger] self.levels@[i1]).price,
                        (#[trigger] self.levels@[i2]).price,
                    ) by {
                        assert(self.levels@[i1] == old(self).levels@[i1 + 1]);
                        assert(self.levels@[i2] == old(self).levels@[i2 + 1]);
                    }
                    assert(removed_at_shape(*old(self), *self, front.id.0, 0, 0));
                    assert(self.levels@ =~= old(self).levels@.drop_first());
                    assert(order_count_rec(old(self).levels@) == old(self).levels@[0].orders@.len()
                        + order_count_rec(old(self).levels@.drop_first()));
                }
            } else {
                let level = &mut self.levels[0];
                level.orders.remove(0);
                proof {
                    let l0 = old(self).levels@[0];
                    let l1 = self.levels@[0];
                    assert(l1.orders@ == l0.orders@.remove(0));
                    assert forall|m: int|
                        0 <= m < l1.orders@.len() implies resting_at(
                        #[trigger] l1.orders@[m],
                        l1.side,
                        l1.price,
                    ) by {
                        assert(l1.orders@[m] == l0.orders@[m + 1]);
                    }
                    assert forall|j1: int, j2: int|
                        0 <= j1 < j2 < l1.orders@.len() implies #[trigger] l1.orders@[j1].id
                        != #[trigger] l1.orders@[j2].id by {
                        assert(l1.orders@[j1] == l0.orders@[j1 + 1]);
                        assert(l1.orders@[j2] == l0.orders@[j2 + 1]);
                    }
                    assert forall|i1: int, i2: int|
                        0 <= i1 < i2 < self.levels@.len() implies better_price(
                        self.side,
                        (#[trigger] self.levels@[i1]).price,
                        (#[trigger] self.levels@[i2]).price,
                    ) by {
                        assert(self.levels@[i1].price == old(self).levels@[i1].price);
                        assert(self.levels@[i2].price == old(self).levels@[i2].price);
                    }
                    assert(removed_at_shape(*old(self), *self, front.id.0, 0, 0));
                    assert(self.levels@.drop_first() =~= old(self).levels@.drop_first());
                    assert(order_count_rec(self.levels@) == self.levels@[0].orders@.len()
                        + order_count_rec(self.levels@.drop_first()));
                    assert(order_count_rec(old(self).levels@) == old(self).levels@[0].orders@.len()
                        + order_count_rec(old(self).levels@.drop_first()));
                }
            }
            Some(front.id.0)
        } else {
            let mut m = front;
            let fill_result = m.fill(q);
            proof {
                assert(fill_result is Ok);
            }
            let level = &mut self.levels[0];
            level.orders[0] = m;
            proof {
                let l0 = old(self).levels@[0];
                let l1 = self.levels@[0];
                assert(l1.orders@ == l0.orders@.update(0, m));
                assert forall|mm: int|
                    0 <= mm < l1.orders@.len() implies resting_at(
                    #[trigger] l1.orders@[mm],
                    l1.side,
                    l1.price,
                ) by {
                    if mm != 0 {
                        assert(l1.orders@[mm] == l0.orders@[mm]);
                    }
                }
                assert forall|j1: int, j2: int|
                    0 <= j1 < j2 < l1.orders@.len() implies #[trigger] l1.orders@[j1].id
                    != #[trigger] l1.orders@[j2].id by {
                    assert(l1.orders@[j1].id == l0.orders@[j1].id);
                    assert(l1.orders@[j2].id == l0.orders@[j2].id);
                }
                assert forall|i1: int, i2: int|
                    0 <= i1 < i2 < self.levels@.len() implies better_price(
                    self.side,
                    (#[trigger] self.levels@[i1]).price,
                    (#[trigger] self.levels@[i2]).price,
                ) by {
                    assert(self.levels@[i1].price == old(self).levels@[i1].price);
                    assert(self.levels@[i2].price == old(self).levels@[i2].price);
                }
                assert(self.levels@.drop_first() =~= old(self).levels@.drop_first());
                assert(order_count_rec(self.levels@) == self.levels@[0].orders@.len()
                    + order_count_rec(self.levels@.drop_first()));
                assert(order_count_rec(old(self).levels@) == old(self).levels@[0].orders@.len()
                    + order_count_rec(old(self).levels@.drop_first()));
            }
            None
        }
    }
}

impl Orderbook {
    /// The maker candidate of side `s`: the oldest order at the best
    /// price, if the side is not empty.
    pub fn best_front(&self, s: OrderSide) -> (r: Option<Order>)
        requires
            self.wf(),
        ensures
            match r {
                None => self.spec_side(s).levels@.len() == 0,
                Some(o) => self.spec_side(s).levels@.len() > 0 && o == self.spec_side(
                    s,
                ).levels@[0].orders@[0],
            },
    {
        let bs = match s {
            OrderSide::Ask => &self.asks,
            OrderSide::Bid => &self.bids,
        };
        if bs.levels.len() == 0 {
            None
        } else {
            proof {
                assert(self.spec_side(s).levels@[0].wf());
            }
            Some(bs.levels[0].orders[0])
        }
    }

    /// Execute `q` against the front maker of side `s`, keeping book and
    /// index consistent: a completed maker leaves the book and the index,
    /// a partial one is written back filled.
    pub fn fill_front(&mut self, s: OrderSide, q: OrderQuantity)
        requires
            old(self).wf(),
            old(self).spec_side(s).levels@.len() > 0,
            0 < q <= old(self).spec_side(s).levels@[0].orders@[0].spec_remaining(),
        ensures
            final(self).wf(),
            final(self).spec_side(s.spec_opposite()) == old(self).spec_side(s.spec_opposite()),
            ({
                let s0 = old(self).spec_side(s);
                let s1 = final(self).spec_side(s);
                let front = s0.levels@[0].orders@[0];
                &&& (q == front.spec_remaining() ==> {
                    &&& final(self).index@ == old(self).index@.remove(front.id.0)
                    &&& removed_at_shape(s0, s1, front.id.0, 0, 0)
                })
                &&& (q < front.spec_remaining() ==> {
                    &&& final(self).index@ == old(self).index@
                    &&& s1.levels@.len() == s0.levels@.len()
                    &&& s1.levels@[0].price == s0.levels@[0].price
                    &&& s1.levels@[0].orders@ == s0.levels@[0].orders@.update(
                        0,
                        (Order {
                            filled_quantity: (front.filled_quantity + q) as OrderQuantity,
                            status: OrderStatus::Partial,
                            ..front
                        }),
                    )
                    &&& forall|m: int| 0 < m < s1.levels@.len() ==> s1.levels@[m] == s0.levels@[m]
                })
                &&& s1.spec_order_count() == s0.spec_order_count() - (
                if q == front.spec_remaining() {
                    1int
                } else {
                    0int
                })
                &&& (s1.levels@.len() > 0 ==> (s1.levels@[0].price == s0.levels@[0].price
                    || better_price(s, s0.levels@[0].price, s1.levels@[0].price)))
                &&& forall|k: u64|
                    #[trigger] final(self).index@.contains_key(k) ==> old(
                        self,
                    ).index@.contains_key(k) && final(self).index@[k] == old(self).index@[k]
            }),
    {
        let ghost b0 = *old(self);
        let ghost front = b0.spec_side(s).levels@[0].orders@[0];
        let completed;
        match s {
            OrderSide::Ask => {
                completed = self.asks.fill_front_order(q);
            },
            OrderSide::Bid => {
                completed = self.bids.fill_front_order(q);
            },
        }
        match completed {
            Some(id) => {
                let ghost e = IndexEntry { side: s, price: b0.spec_side(s).levels@[0].price };
                proof {
                    assert(b0.index@.contains_key(front.id.0) && b0.index@[front.id.0] == e) by {
                        assert(b0.spec_side(s).levels@[0].orders@[0] == front);
                    }
                }
                self.index.remove(&id);
                proof {
                    assert(removed_at_shape(b0.spec_side(s), self.spec_side(s), id, 0, 0));
                    self.lemma_restore_after_removal(b0, id, e);
                }
            },
            None => {
                proof {
                    let o1 = Order {
                        filled_quantity: (front.filled_quantity + q) as OrderQuantity,
                        status: OrderStatus::Partial,
                        ..front
                    };
                    self.lemma_restore_after_front_update(b0, s, o1);
                }
            },
        }
    }

    /// Re-establish the invariant after the front maker of side `s` was
    /// replaced in place by `o1`, an order with the same id.
    proof fn lemma_restore_after_front_update(self, b0: Orderbook, s: OrderSide, o1: Order)
        requires
            b0.wf(),
            self.asks.side == b0.asks.side,
            self.bids.side == b0.bids.side,
            self.index@ == b0.index@,
            self.spec_side(s.spec_opposite()) == b0.spec_side(s.spec_opposite()),
            self.spec_side(s).wf(),
            b0.spec_side(s).levels@.len() > 0,
            b0.spec_side(s).levels@[0].orders@.len() > 0,
            self.spec_side(s).levels@.len() == b0.spec_side(s).levels@.len(),
            self.spec_side(s).levels@[0].price == b0.spec_side(s).levels@[0].price,
            self.spec_side(s).levels@[0].orders@ == b0.spec_side(s).levels@[0].orders@.update(
                0,
                o1,
            ),
            o1.id == b0.spec_side(s).levels@[0].orders@[0].id,
            forall|m: int|
                0 < m < self.spec_side(s).levels@.len() ==> self.spec_side(s).levels@[m] == b0.spec_side(
                    s,
                ).levels@[m],
        ensures
            self.wf(),
    {
        let s0 = b0.spec_side(s);
        let s1 = self.spec_side(s);
        assert forall|id2: u64| #[trigger] self.index@.contains_key(id2) implies self.entry_ok(
            id2,
            self.index@[id2],
        ) by {
            let e2 = b0.index@[id2];
            assert(b0.entry_ok(id2, e2));
            let (i0, j0) = choose|i0: int, j0: int| b0.pos_ok(id2, e2, i0, j0);
            assert(b0.pos_ok(id2, e2, i0, j0));
            if e2.side != s {
                assert(self.pos_ok(id2, e2, i0, j0));
            } else {
                if i0 == 0 && j0 == 0 {
                    assert(s1.levels@[0].orders@[0] == o1);
                    assert(self.pos_ok(id2, e2, 0, 0));
                } else if i0 == 0 {
                    assert(s1.levels@[0].orders@[j0] == s0.levels@[0].orders@[j0]);
                    assert(self.pos_ok(id2, e2, i0, j0));
                } else {
                    assert(s1.levels@[i0] == s0.levels@[i0]);
                    assert(self.pos_ok(id2, e2, i0, j0));
                }
            }
        }
        assert forall|s2: OrderSide, i2: int, j2: int|
            (0 <= i2 < self.spec_side(s2).levels@.len() && 0 <= j2 < self.spec_side(
                s2,
            ).levels@[i2].orders@.len()) implies {
            let o = #[trigger] self.spec_side(s2).levels@[i2].orders@[j2];
            &&& self.index@.contains_key(o.id.0)
            &&& self.index@[o.id.0] == (IndexEntry {
                side: s2,
                price: self.spec_side(s2).levels@[i2].price,
            })
        } by {
            let o = self.spec_side(s2).levels@[i2].orders@[j2];
            if s2 != s {
                assert(b0.spec_side(s2).levels@[i2].orders@[j2] == o);
            } else {
                if i2 == 0 && j2 == 0 {
                    assert(o == o1);
                    assert(b0.spec_side(s2).levels@[0].orders@[0].id.0 == o.id.0);
                } else if i2 == 0 {
                    assert(b0.spec_side(s2).levels@[0].orders@[j2] == o);
                } else {
                    assert(s1.levels@[i2] == s0.levels@[i2]);
                    assert(b0.spec_side(s2).levels@[i2].orders@[j2] == o);
                }
            }
        }
    }
}

/// One row of a read-only book snapshot: a price level's price, its
/// aggregated remaining quantity, and how many orders rest in it.
#[derive(Clone, Copy, Debug, PartialEq, Eq, Structural)]
pub struct LevelView {
    pub price: OrderPrice,
    pub quantity: OrderQuantity,
    pub order_count: usize,
}

/// The snapshot lists every level in book order with its price, its
/// aggregated remaining quantity (capped at the largest representable
/// value), and its order count.
pub open spec fn side_viewed(bs: BookSide, view: Seq<LevelView>) -> bool {
    &&& view.len() == bs.levels@.len()
    &&& forall|i: int|
        0 <= i < view.len() ==> {
            let v = #[trigger] view[i];
            &&& v.price == bs.levels@[i].price
            &&& v.order_count == bs.levels@[i].orders@.len()
            &&& v.quantity as int == if level_qty_rec(bs.levels@[i].orders@) > u128::MAX as int {
                u128::MAX as int
            } else {
                level_qty_rec(bs.levels@[i].orders@)
            }
        }
}

impl BookSide {
    /// Build the snapshot rows for this side, best level first.
    pub fn side_view(&self) -> (r: Vec<LevelView>)
        requires
            self.wf(),
        ensures
            side_viewed(*self, r@),
    {
        let n = self.levels.len();
        let mut out: Vec<LevelView> = Vec::new();
        let mut i: usize = 0;
        while i < n
            invariant
                self.wf(),
                n == self.levels@.len(),
                i <= n,
                out@.len() == i,
                forall|m: int|
                    0 <= m < i ==> {
                        let v = #[trigger] out@[m];
                        &&& v.price == self.levels@[m].price
                        &&& v.order_count == self.levels@[m].orders@.len()
                        &&& v.quantity as int == if level_qty_rec(self.levels@[m].orders@)
                            > u128::MAX as int {
                            u128::MAX as int
                        } else {
                            level_qty_rec(self.levels@[m].orders@)
                        }
                    },
            decreases n - i,
        {
            let level = &self.levels[i];
            let m = level.orders.len();
            let mut acc: OrderQuantity = 0;
            let ghost mut tsum: int = 0;
            let mut j: usize = 0;
            proof {
                assert(level.orders@.skip(0) =~= level.orders@);
            }
            while j < m
                invariant
                    level.wf(),
                    m == level.orders@.len(),
                    j <= m,
                    tsum >= 0,
                    acc as int == if tsum > u128::MAX as int {
                        u128::MAX as int
                    } else {
                        tsum
                    },
                    tsum == level_qty_rec(level.orders@) - level_qty_rec(
                        level.orders@.skip(j as int),
                    ),
                decreases m - j,
            {
                proof {
                    let lpre = level.orders@.skip(j as int);
                    assert(lpre[0] == level.orders@[j as int]);
                    assert(lpre.drop_first() =~= level.orders@.skip(j as int + 1));
                    assert(level.orders@[j as int].wf());
                }
                acc = sat_add(acc, level.orders[j].remaining());
                proof {
                    tsum = tsum + level.orders@[j as int].spec_remaining();
                }
                j = j + 1;
            }
            proof {
                assert(level.orders@.skip(m as int) =~= Seq::<Order>::empty());
            }
            out.push(LevelView { price: level.price, quantity: acc, order_count: m });
            i = i + 1;
        }
        out
    }
}

/// Two sides hold the same content: level for level the same price,
/// side, and queue of orders.
pub open spec fn same_levels(a: BookSide, b: BookSide) -> bool {
    &&& a.levels@.len() == b.levels@.len()
    &&& forall|m: int|
        0 <= m < a.levels@.len() ==> ((#[trigger] a.levels@[m]).price == b.levels@[m].price
            && a.levels@[m].side == b.levels@[m].side && a.levels@[m].orders@
            == b.levels@[m].orders@)
}

/// Cancelling a resting order and re-booking the identical order yields
/// the original side again, provided the order was the most recent
/// arrival at its price (removal elsewhere in the queue would change the
/// time priority of what follows). `b0` is the side before the cancel,
/// `b1` after it, `b2` after the identical order was booked again.
pub proof fn lemma_cancel_resubmit_round_trip(
    b0: BookSide,
    b1: BookSide,
    b2: BookSide,
    o: Order,
    i: int,
    j: int,
)
    requires
        b0.wf(),
        b2.wf(),
        b1.side == b0.side,
        b2.side == b1.side,
        removed_at_shape(b0, b1, o.id.0, i, j),
        o == b0.levels@[i].orders@[j],
        j == b0.levels@[i].orders@.len() - 1,
        booked_side_shape(b1, b2, o),
    ensures
        same_levels(b2, b0),
{
    let p = o.spec_limit_price()->Some_0;
    assert(b0.levels@[i].wf());
    assert(resting_at(o, b0.side, b0.levels@[i].price));
    assert(p == b0.levels@[i].price);
    let k = choose|k: int| booked_at_shape(b1, b2, o, k);
    assert(booked_at_shape(b1, b2, o, k));
    if b0.levels@[i].orders@.len() == 1 {
        // the whole level went away with the cancel
        assert(!b1.spec_has_level(p)) by {
            if b1.spec_has_level(p) {
                let w = choose|w: int|
                    0 <= w < b1.levels@.len() && (#[trigger] b1.levels@[w]).price == p;
                if w < i {
                    assert(b1.levels@[w] == b0.levels@[w]);
                    assert(better_price(b0.side, b0.levels@[w].price, b0.levels@[i].price));
                } else {
                    assert(b1.levels@[w] == b0.levels@[w + 1]);
                    assert(better_price(b0.side, b0.levels@[i].price, b0.levels@[w + 1].price));
                }
                assert(false);
            }
        }
        // the fresh single-order level lands exactly where the old one stood
        assert(k == i) by {
            if k < i {
                assert(b2.levels@[k + 1] == b1.levels@[k]);
                assert(b1.levels@[k] == b0.levels@[k]);
                assert(better_price(b2.side, b2.levels@[k].price, b2.levels@[k + 1].price));
                assert(better_price(b0.side, b0.levels@[k].price, b0.levels@[i].price));
                assert(false);
            }
            if k > i {
                assert(b2.levels@[i] == b1.levels@[i]);
                assert(b1.levels@[i] == b0.levels@[i + 1]);
                assert(better_price(b2.side, b2.levels@[i].price, b2.levels@[k].price));
                assert(better_price(b0.side, b0.levels@[i].price, b0.levels@[i + 1].price));
                assert(false);
            }
        }
        assert forall|m: int|
            0 <= m < b2.levels@.len() implies ((#[trigger] b2.levels@[m]).price
            == b0.levels@[m].price && b2.levels@[m].side == b0.levels@[m].side
            && b2.levels@[m].orders@ == b0.levels@[m].orders@) by {
            if m < i {
                assert(b2.levels@[m] == b1.levels@[m]);
                assert(b1.levels@[m] == b0.levels@[m]);
            } else if m == i {
                assert(b0.levels@[i].orders@ =~= seq![o]);
                assert(b2.levels@[i].orders@ =~= b0.levels@[i].orders@);
            } else {
                assert(b2.levels@[m] == b1.levels@[m - 1]);
                assert(b1.levels@[m - 1] == b0.levels@[m]);
            }
        }
    } else {
        // the level survived the cancel; the order rejoins its own tail
        assert(b1.levels@[i].price == p);
        assert(b1.spec_has_level(p));
        assert(k == i) by {
            if k != i {
                assert(b1.levels@[k].price == p);
                if k < i {
                    assert(b1.levels@[k] == b0.levels@[k]);
                    assert(better_price(b0.side, b0.levels@[k].price, b0.levels@[i].price));
                } else {
                    assert(b1.levels@[k] == b0.levels@[k]);
                    assert(better_price(b0.side, b0.levels@[i].price, b0.levels@[k].price));
                }
                assert(false);
            }
        }
        assert forall|m: int|
            0 <= m < b2.levels@.len() implies ((#[trigger] b2.levels@[m]).price
            == b0.levels@[m].price && b2.levels@[m].side == b0.levels@[m].side
            && b2.levels@[m].orders@ == b0.levels@[m].orders@) by {
            if m == i {
                assert(b1.levels@[i].orders@ == b0.levels@[i].orders@.remove(j));
                assert(b2.levels@[i].orders@ == b1.levels@[i].orders@.push(o));
                assert(b2.levels@[i].orders@ =~= b0.levels@[i].orders@);
            } else {
                assert(b2.levels@[m] == b1.levels@[m]);
                assert(b1.levels@[m] == b0.levels@[m]);
            }
        }
    }
}

/// Whether `taker` would execute against the current best maker of the
/// opposing side of `b`.
pub open spec fn spec_crosses_best(b: Orderbook, taker: Order) -> bool {
    let bs = b.spec_side(taker.side.spec_opposite());
    bs.levels@.len() > 0 && taker.spec_matches(bs.levels@[0].orders@[0])
}

/// Facts about the trades one `match_order` call emits: all carry the
/// taker's id, consecutive sequence numbers from `seq_start`, positive
/// quantities, and prices that never improve as the list advances (the
/// taker walks the opposing side best price first).
pub open spec fn trades_emitted_ok(
    trades: Seq<Trade>,
    taker: Order,
    seq_start: u64,
    opp: OrderSide,
) -> bool {
    &&& forall|k: int|
        0 <= k < trades.len() ==> {
            let t = #[trigger] trades[k];
            &&& t.taker_id == taker.id
            &&& t.sequence == seq_start + k
            &&& 0 < t.quantity
        }
    &&& forall|k1: int, k2: int|
        0 <= k1 <= k2 < trades.len() ==> !better_price(
            opp,
            (#[trigger] trades[k2]).price,
            (#[trigger] trades[k1]).price,
        )
    &&& forall|k1: int, k2: int|
        0 <= k1 < k2 < trades.len() ==> (#[trigger] trades[k1]).maker_id != (
        #[trigger] trades[k2]).maker_id
}

/// Nothing about the resting book is different.
pub open spec fn book_unchanged(b0: Orderbook, b1: Orderbook) -> bool {
    &&& b1.asks == b0.asks
    &&& b1.bids == b0.bids
    &&& b1.index@ == b0.index@
}

impl Orderbook {
    /// Match an incoming taker against the opposing side: price-time
    /// priority, maker-priced fills, post-only and fill-or-kill handling,
    /// and the taker's residual either cancelled (market, IOC) or rested
    /// (GTC limit). Returns the taker in its final state and the trades,
    /// numbered consecutively from `seq_start`.
    pub fn match_order(&mut self, taker: Order, seq_start: u64) -> (r: (Order, Vec<Trade>))
        requires
            old(self).wf(),
            taker.wf(),
            taker.status == OrderStatus::Open,
            taker.filled_quantity == 0,
            !old(self).index@.contains_key(taker.id.0),
            seq_start + old(self).spec_side(taker.side.spec_opposite()).spec_order_count() + 1
                <= u64::MAX,
        ensures
            final(self).wf(),
            r.0.wf(),
            r.0.id == taker.id,
            r.0.side == taker.side,
            r.0.type_ == taker.type_,
            r.0.order_quantity == taker.order_quantity,
            r.0.filled_quantity == trades_qty_sum(r.1@),
            r.1@.len() <= old(self).spec_side(taker.side.spec_opposite()).spec_order_count() + 1,
            // with nothing traded the opposing side is untouched, and no
            // key but the taker's own id can ever join the index
            r.1@.len() == 0 ==> final(self).spec_side(taker.side.spec_opposite()) == old(
                self,
            ).spec_side(taker.side.spec_opposite()),
            forall|k: u64|
                #[trigger] final(self).index@.contains_key(k) ==> old(self).index@.contains_key(k)
                    || k == taker.id.0,
            trades_emitted_ok(r.1@, taker, seq_start, taker.side.spec_opposite()),
            // a post-only taker that would execute is rejected outright
            (taker.spec_is_post_only() && spec_crosses_best(*old(self), taker)) ==> {
                &&& book_unchanged(*old(self), *final(self))
                &&& r.1@.len() == 0
                &&& r.0.status == OrderStatus::Cancelled
            },
            // a post-only taker that would not execute rests directly
            (taker.spec_is_post_only() && !spec_crosses_best(*old(self), taker)) ==> {
                &&& r.1@.len() == 0
                &&& r.0 == taker
                &&& taker.order_quantity > 0 ==> {
                    &&& final(self).index@ == old(self).index@.insert(
                        taker.id.0,
                        (IndexEntry {
                            side: taker.side,
                            price: taker.spec_limit_price()->Some_0,
                        }),
                    )
                    &&& booked_side_shape(
                        old(self).spec_side(taker.side),
                        final(self).spec_side(taker.side),
                        taker,
                    )
                    &&& final(self).spec_side(taker.side.spec_opposite()) == old(self).spec_side(
                        taker.side.spec_opposite(),
                    )
                }
                &&& taker.order_quantity == 0 ==> book_unchanged(*old(self), *final(self))
            },
            // a fill-or-kill taker that cannot fill completely is killed
            (taker.spec_is_fill_or_kill() && crossing_avail_rec(
                old(self).spec_side(taker.side.spec_opposite()).levels@,
                taker,
            ) < taker.order_quantity) ==> {
                &&& book_unchanged(*old(self), *final(self))
                &&& r.1@.len() == 0
                &&& r.0.status == OrderStatus::Cancelled
            },
            // otherwise the matching loop ran; the residual is cancelled
            // (market, IOC) or rested (GTC)
            (!taker.spec_is_post_only() && !(taker.spec_is_fill_or_kill() && crossing_avail_rec(
                old(self).spec_side(taker.side.spec_opposite()).levels@,
                taker,
            ) < taker.order_quantity)) ==> {
                &&& (r.0.spec_remaining() > 0 && taker.spec_is_immediate_or_cancel()) ==> {
                    &&& r.0.status == (if r.1@.len() == 0 {
                        OrderStatus::Cancelled
                    } else {
                        OrderStatus::Closed
                    })
                    &&& !final(self).index@.contains_key(taker.id.0)
                    &&& final(self).spec_side(taker.side) == old(self).spec_side(taker.side)
                }
                &&& (r.0.spec_remaining() > 0 && !taker.spec_is_immediate_or_cancel()) ==> {
                    &&& r.0.status == (if r.1@.len() == 0 {
                        OrderStatus::Open
                    } else {
                        OrderStatus::Partial
                    })
                    &&& final(self).index@.contains_key(taker.id.0)
                    &&& final(self).index@[taker.id.0] == (IndexEntry {
                        side: taker.side,
                        price: taker.spec_limit_price()->Some_0,
                    })
                    &&& booked_side_shape(
                        old(self).spec_side(taker.side),
                        final(self).spec_side(taker.side),
                        r.0,
                    )
                }
                &&& (r.0.spec_remaining() == 0 && r.1@.len() > 0) ==> {
                    &&& r.0.status == OrderStatus::Completed
                    &&& !final(self).index@.contains_key(taker.id.0)
                    &&& final(self).spec_side(taker.side) == old(self).spec_side(taker.side)
                }
                &&& (r.0.spec_remaining() == 0 && r.1@.len() == 0) ==> {
                    &&& r.0 == taker
                    &&& book_unchanged(*old(self), *final(self))
                }
                // price-based, status-blind: whatever the taker kind, the
                // loop ran down to the taker's price limit, so a residual
                // with remaining quantity never leaves a crossable best
                &&& (r.0.spec_remaining() > 0 && final(self).spec_side(
                    taker.side.spec_opposite(),
                ).levels@.len() > 0) ==> !r.0.spec_price_crosses(
                    final(self).spec_side(taker.side.spec_opposite()).levels@[0].price,
                )
            },
            // the book is never left crossed: a residual taker with
            // remaining quantity no longer matches the new best maker
            (r.0.spec_remaining() > 0 && final(self).spec_side(
                taker.side.spec_opposite(),
            ).levels@.len() > 0) ==> !r.0.spec_matches(
                final(self).spec_side(taker.side.spec_opposite()).levels@[0].orders@[0],
            ),
            // the best opposing price only worsens under a taker
            final(self).spec_side(taker.side.spec_opposite()).levels@.len() > 0 ==> {
                let s0 = old(self).spec_side(taker.side.spec_opposite());
                let s1 = final(self).spec_side(taker.side.spec_opposite());
                &&& s0.levels@.len() > 0
                &&& (s1.levels@[0].price == s0.levels@[0].price || better_price(
                    taker.side.spec_opposite(),
                    s0.levels@[0].price,
                    s1.levels@[0].price,
                ))
            },
    {
        let opp = taker.side().opposite();
        let ghost opp_s = taker.side.spec_opposite();
        let mut t = taker;
        let mut trades: Vec<Trade> = Vec::new();
        proof {
            lemma_order_count_nonneg(self.spec_side(opp_s).levels@);
        }

        if t.is_post_only() {
            let crosses = match self.best_front(opp) {
                Some(front) => t.matches(&front),
                None => false,
            };
            if crosses {
                t.cancel();
                return (t, trades);
            }
            if t.order_quantity > 0 {
                proof {
                    assert(t.type_ is Limit);
                }
                self.book_order(t);
            }
            return (t, trades);
        }
        if t.is_fill_or_kill() {
            let enough = match opp {
                OrderSide::Ask => self.asks.crossing_available_at_least(&t, t.order_quantity),
                OrderSide::Bid => self.bids.crossing_available_at_least(&t, t.order_quantity),
            };
            if !enough {
                t.cancel();
                return (t, trades);
            }
        }

        let mut seq = seq_start;
        let ghost count0 = old(self).spec_side(opp_s).spec_order_count();
        loop
            invariant
                self.wf(),
                opp == opp_s,
                opp_s == taker.side.spec_opposite(),
                taker.wf(),
                taker.status == OrderStatus::Open,
                taker.filled_quantity == 0,
                t.wf(),
                t.id == taker.id,
                t.side == taker.side,
                t.type_ == taker.type_,
                t.order_quantity == taker.order_quantity,
                trades@.len() == 0 ==> t == taker,
                trades@.len() > 0 ==> t.status == (if t.filled_quantity == t.order_quantity {
                    OrderStatus::Completed
                } else {
                    OrderStatus::Partial
                }),
                t.filled_quantity == trades_qty_sum(trades@),
                trades_emitted_ok(trades@, taker, seq_start, opp_s),
                seq == seq_start + trades@.len(),
                seq_start + count0 + 1 <= u64::MAX,
                count0 == old(self).spec_side(opp_s).spec_order_count(),
                seq + self.spec_side(opp_s).spec_order_count() <= seq_start + count0 + (
                if t.spec_remaining() == 0 {
                    1int
                } else {
                    0int
                }),
                self.spec_side(taker.side) == old(self).spec_side(taker.side),
                !self.index@.contains_key(taker.id.0),
                trades@.len() == 0 ==> self.asks == old(self).asks && self.bids == old(self).bids
                    && self.index@ == old(self).index@,
                forall|k: int|
                    0 <= k < trades@.len() ==> (self.spec_side(opp_s).levels@.len() > 0
                        ==> !better_price(
                        opp_s,
                        self.spec_side(opp_s).levels@[0].price,
                        (#[trigger] trades@[k]).price,
                    )),
                self.spec_side(opp_s).levels@.len() > 0 ==> {
                    &&& old(self).spec_side(opp_s).levels@.len() > 0
                    &&& (self.spec_side(opp_s).levels@[0].price == old(self).spec_side(
                        opp_s,
                    ).levels@[0].price || better_price(
                        opp_s,
                        old(self).spec_side(opp_s).levels@[0].price,
                        self.spec_side(opp_s).levels@[0].price,
                    ))
                },
                forall|k: u64|
                    #[trigger] self.index@.contains_key(k) ==> old(self).index@.contains_key(k)
                        && self.index@[k] == old(self).index@[k],
                t.spec_remaining() > 0 ==> forall|k: int|
                    0 <= k < trades@.len() ==> !self.index@.contains_key(
                        (#[trigger] trades@[k]).maker_id.0,
                    ),
            ensures
                t.spec_remaining() == 0 || self.spec_side(opp_s).levels@.len() == 0
                    || !t.spec_matches(self.spec_side(opp_s).levels@[0].orders@[0]),
                t.spec_remaining() == 0 || self.spec_side(opp_s).levels@.len() == 0
                    || !t.spec_price_crosses(self.spec_side(opp_s).levels@[0].price),
            decreases self.spec_side(opp_s).spec_order_count(), t.spec_remaining(),
        {
            if t.remaining() == 0 {
                break ;
            }
            let front = match self.best_front(opp) {
                Some(f) => f,
                None => { break ; },
            };
            if !t.matches(&front) {
                proof {
                    assert(!t.spec_is_closed());
                    assert(self.spec_side(opp_s).levels@[0].wf());
                    assert(resting_at(front, opp_s, self.spec_side(opp_s).levels@[0].price));
                }
                break ;
            }
            proof {
                assert(self.spec_side(opp_s).levels@[0].wf());
                assert(resting_at(front, opp_s, self.spec_side(opp_s).levels@[0].price));
            }
            let ghost best_before = self.spec_side(opp_s).levels@[0].price;
            proof {
                assert(self.index@.contains_key(front.id.0)) by {
                    assert(self.spec_side(opp_s).levels@[0].orders@[0] == front);
                }
                assert forall|k: int| 0 <= k < trades@.len() implies (
                #[trigger] trades@[k]).maker_id != front.id by {
                    assert(!self.index@.contains_key(trades@[k].maker_id.0));
                }
                let lv = self.spec_side(opp_s).levels@;
                assert(order_count_rec(lv) == lv[0].orders@.len() + order_count_rec(
                    lv.drop_first(),
                ));
                lemma_order_count_nonneg(lv.drop_first());
                assert(seq + 1 <= u64::MAX);
            }
            let q = t.can_trade(&front);
            let p = match front.limit_price() {
                Some(p) => p,
                None => {
                    // unreachable: a matching maker is priced
                    proof {
                        assert(false);
                    }
                    0
                },
            };
            let fill_result = t.fill(q);
            proof {
                assert(fill_result is Ok);
            }
            let ghost trades_before = trades@;
            self.fill_front(opp, q);
            trades.push(
                Trade {
                    taker_id: t.id,
                    maker_id: front.id,
                    price: p,
                    quantity: q,
                    sequence: seq,
                },
            );
            seq = seq + 1;
            proof {
                lemma_order_count_nonneg(self.spec_side(opp_s).levels@);
                assert(trades@.drop_last() =~= trades_before);
                assert(trades@.last().quantity == q);
                if self.spec_side(opp_s).levels@.len() > 0 {
                    let nb = self.spec_side(opp_s).levels@[0].price;
                    assert(nb == best_before || better_price(opp_s, best_before, nb));
                    assert forall|k: int| 0 <= k < trades@.len() implies !better_price(
                        opp_s,
                        nb,
                        (#[trigger] trades@[k]).price,
                    ) by {
                        if k < trades@.len() - 1 {
                            assert(trades@[k] == trades_before[k]);
                        }
                        if opp_s is Ask {
                        } else {
                        }
                    }
                }
                assert forall|k1: int, k2: int|
                    0 <= k1 <= k2 < trades@.len() implies !better_price(
                    opp_s,
                    (#[trigger] trades@[k2]).price,
                    (#[trigger] trades@[k1]).price,
                ) by {
                    if k2 < trades@.len() - 1 {
                        assert(trades@[k1] == trades_before[k1]);
                        assert(trades@[k2] == trades_before[k2]);
                    } else if k1 < trades@.len() - 1 {
                        assert(trades@[k1] == trades_before[k1]);
                        assert(!better_price(opp_s, best_before, trades_before[k1].price));
                    }
                }
                assert forall|k1: int, k2: int|
                    0 <= k1 < k2 < trades@.len() implies (#[trigger] trades@[k1]).maker_id != (
                #[trigger] trades@[k2]).maker_id by {
                    assert(trades@[k1] == trades_before[k1]);
                    if k2 < trades@.len() - 1 {
                        assert(trades@[k2] == trades_before[k2]);
                    } else {
                        assert(trades@[k2].maker_id == front.id);
                    }
                }
                if t.spec_remaining() > 0 {
                    assert(q == front.spec_remaining());
                    assert forall|k: int| 0 <= k < trades@.len() implies !self.index@.contains_key(
                        (#[trigger] trades@[k]).maker_id.0,
                    ) by {
                        if k < trades@.len() - 1 {
                            assert(trades@[k] == trades_before[k]);
                        } else {
                            assert(trades@[k].maker_id == front.id);
                        }
                    }
                }
            }
        }

        proof {
            lemma_order_count_nonneg(self.spec_side(opp_s).levels@);
        }
        if t.remaining() > 0 {
            if t.is_immediate_or_cancel() {
                t.cancel();
            } else {
                proof {
                    assert(t.type_ is Limit) by {
                        if t.type_ is Market {
                            assert(t.spec_is_immediate_or_cancel());
                        }
                    }
                    assert(resting_at(t, t.side, t.spec_limit_price()->Some_0));
                }
                self.book_order(t);
            }
        }
        (t, trades)
    }
}

} // verus!
