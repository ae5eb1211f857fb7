use vstd::prelude::*;

verus! {

/// Opaque 64-bit order identifier; equality is by the number alone.
#[derive(Clone, Copy, Debug, Hash, PartialEq, Eq, Structural)]
pub struct OrderId(pub u64);

impl OrderId {
    pub fn new(order_id: u64) -> (r: Self)
        ensures
            r == OrderId(order_id),
    {
        OrderId(order_id)
    }
}

/// Exact fixed-point decimal price: an integer count of 10^-8 units.
pub type OrderPrice = u128;

/// Exact fixed-point decimal quantity: an integer count of 10^-8 units.
pub type OrderQuantity = u128;

#[derive(Clone, Copy, Debug, Hash, PartialEq, Eq, Structural)]
pub enum OrderSide {
    Ask,
    Bid,
}

impl OrderSide {
    /// The side a taker trades against.
    pub open spec fn spec_opposite(self) -> OrderSide {
        match self {
            OrderSide::Ask => OrderSide::Bid,
            OrderSide::Bid => OrderSide::Ask,
        }
    }

    pub fn opposite(self) -> (r: OrderSide)
        ensures
            r == self.spec_opposite(),
    {
        match self {
            OrderSide::Ask => OrderSide::Bid,
            OrderSide::Bid => OrderSide::Ask,
        }
    }
}

/// The opposite function is an involution.
pub proof fn lemma_opposite_involution(s: OrderSide)
    ensures
        s.spec_opposite().spec_opposite() == s,
{
}

#[derive(Clone, Copy, Debug, PartialEq, Eq, Structural)]
pub enum TimeInForce {
    GoodTilCancel { post_only: bool },
    ImmediateOrCancel { fill_or_kill: bool },
}

impl Default for TimeInForce {
    fn default() -> (r: Self)
        ensures
            r == (TimeInForce::GoodTilCancel { post_only: false }),
    {
        TimeInForce::GoodTilCancel { post_only: false }
    }
}

#[derive(Clone, Copy, Debug, PartialEq, Eq, Structural)]
pub enum OrderType {
    Limit { limit_price: OrderPrice, time_in_force: TimeInForce },
    Market { fill_or_kill: bool },
}

#[derive(Clone, Copy, Debug, PartialEq, Eq, Structural)]
pub enum OrderStatus {
    Open,
    Partial,
    Cancelled,
    Closed,
    Completed,
}

impl OrderStatus {
    /// Terminal statuses admit no further transition.
    pub open spec fn spec_is_terminal(self) -> bool {
        match self {
            OrderStatus::Cancelled | OrderStatus::Closed | OrderStatus::Completed => true,
            OrderStatus::Open | OrderStatus::Partial => false,
        }
    }
}

#[derive(Clone, Copy, Debug, PartialEq, Eq, Structural)]
pub enum OrderError {
    Overfill { fill: OrderQuantity, remaining: OrderQuantity },
}

/// A single order: identity, side, type, and fill accounting.
#[derive(Clone, Copy, Debug, PartialEq, Eq, Structural)]
pub struct Order {
    pub id: OrderId,
    pub side: OrderSide,
    pub type_: OrderType,
    pub order_quantity: OrderQuantity,
    pub filled_quantity: OrderQuantity,
    pub status: OrderStatus,
}

impl Order {
    /// Basic validity: the fill never exceeds the order quantity, a fresh
    /// (Open) order has no fill, and Completed means exactly full.
    pub open spec fn wf(self) -> bool {
        &&& self.filled_quantity <= self.order_quantity
        &&& self.status == OrderStatus::Open ==> self.filled_quantity == 0
        &&& self.status == OrderStatus::Completed ==> self.filled_quantity
            == self.order_quantity
    }

    pub open spec fn spec_remaining(self) -> int {
        self.order_quantity - self.filled_quantity
    }

    pub open spec fn spec_limit_price(self) -> Option<OrderPrice> {
        match self.type_ {
            OrderType::Limit { limit_price, .. } => Some(limit_price),
            OrderType::Market { .. } => None,
        }
    }

    pub open spec fn spec_is_bookable(self) -> bool {
        self.type_ is Limit
    }

    pub open spec fn spec_is_closed(self) -> bool {
        self.status.spec_is_terminal()
    }

    pub open spec fn spec_is_fill_or_kill(self) -> bool {
        match self.type_ {
            OrderType::Limit { time_in_force, .. } => match time_in_force {
                TimeInForce::ImmediateOrCancel { fill_or_kill } => fill_or_kill,
                TimeInForce::GoodTilCancel { .. } => false,
            },
            OrderType::Market { fill_or_kill } => fill_or_kill,
        }
    }

    pub open spec fn spec_is_post_only(self) -> bool {
        match self.type_ {
            OrderType::Limit { time_in_force, .. } => match time_in_force {
                TimeInForce::GoodTilCancel { post_only } => post_only,
                TimeInForce::ImmediateOrCancel { .. } => false,
            },
            OrderType::Market { .. } => false,
        }
    }

    pub open spec fn spec_is_immediate_or_cancel(self) -> bool {
        match self.type_ {
            OrderType::Limit { time_in_force, .. } => time_in_force is ImmediateOrCancel,
            OrderType::Market { .. } => true,
        }
    }

    /// The matches predicate of the matching engine: whether taker `self`
    /// may execute against resting maker `maker`.
    pub open spec fn spec_matches(self, maker: Order) -> bool {
        if self.spec_is_closed() || maker.spec_is_closed() || maker.spec_limit_price() is None {
            false
        } else {
            match self.type_ {
                OrderType::Limit { limit_price, .. } => match (self.side, maker.side) {
                    (OrderSide::Ask, OrderSide::Bid) => limit_price
                        <= maker.spec_limit_price()->Some_0,
                    (OrderSide::Bid, OrderSide::Ask) => limit_price
                        >= maker.spec_limit_price()->Some_0,
                    _ => false,
                },
                OrderType::Market { .. } => true,
            }
        }
    }

    /// Whether this taker's price reaches a maker level at `maker_price`:
    /// a market taker always does, a limit ask needs its price at or below,
    /// a limit bid at or above.
    pub open spec fn spec_price_crosses(self, maker_price: OrderPrice) -> bool {
        match self.type_ {
            OrderType::Market { .. } => true,
            OrderType::Limit { limit_price, .. } => match self.side {
                OrderSide::Ask => limit_price <= maker_price,
                OrderSide::Bid => limit_price >= maker_price,
            },
        }
    }

    pub fn crosses_price(&self, maker_price: OrderPrice) -> (r: bool)
        ensures
            r == self.spec_price_crosses(maker_price),
    {
        match self.type_ {
            OrderType::Market { .. } => true,
            OrderType::Limit { limit_price, .. } => match self.side {
                OrderSide::Ask => limit_price <= maker_price,
                OrderSide::Bid => limit_price >= maker_price,
            },
        }
    }

    /// A limit order with the default (GTC, not post-only) time in force.
    pub fn limit_order(
        id: OrderId,
        side: OrderSide,
        quantity: OrderQuantity,
        limit_price: OrderPrice,
    ) -> (r: Self)
        ensures
            r == (Order {
                id,
                side,
                type_: OrderType::Limit {
                    limit_price,
                    time_in_force: TimeInForce::GoodTilCancel { post_only: false },
                },
                order_quantity: quantity,
                filled_quantity: 0,
                status: OrderStatus::Open,
            }),
    {
        Order {
            id,
            side,
            type_: OrderType::Limit {
                limit_price,
                time_in_force: TimeInForce::GoodTilCancel { post_only: false },
            },
            order_quantity: quantity,
            filled_quantity: 0,
            status: OrderStatus::Open,
        }
    }

    /// A market order; market orders are never fill-or-kill by default.
    pub fn market_order(id: OrderId, side: OrderSide, quantity: OrderQuantity) -> (r: Self)
        ensures
            r == (Order {
                id,
                side,
                type_: OrderType::Market { fill_or_kill: false },
                order_quantity: quantity,
                filled_quantity: 0,
                status: OrderStatus::Open,
            }),
    {
        Order {
            id,
            side,
            type_: OrderType::Market { fill_or_kill: false },
            order_quantity: quantity,
            filled_quantity: 0,
            status: OrderStatus::Open,
        }
    }

    pub fn id(&self) -> (r: OrderId)
        ensures
            r == self.id,
    {
        self.id
    }

    pub fn side(&self) -> (r: OrderSide)
        ensures
            r == self.side,
    {
        self.side
    }

    pub fn status(&self) -> (r: OrderStatus)
        ensures
            r == self.status,
    {
        self.status
    }

    pub fn remaining(&self) -> (r: OrderQuantity)
        requires
            self.wf(),
        ensures
            r == self.spec_remaining(),
    {
        self.order_quantity - self.filled_quantity
    }

    pub fn limit_price(&self) -> (r: Option<OrderPrice>)
        ensures
            r == self.spec_limit_price(),
    {
        match self.type_ {
            OrderType::Limit { limit_price, .. } => Some(limit_price),
            OrderType::Market { .. } => None,
        }
    }

    /// The quantity the two orders can trade: the smaller remaining.
    pub fn can_trade(&self, order: &Order) -> (r: OrderQuantity)
        requires
            self.wf(),
            order.wf(),
        ensures
            r == if self.spec_remaining() <= order.spec_remaining() {
                self.spec_remaining()
            } else {
                order.spec_remaining()
            },
    {
        let mine = self.remaining();
        let theirs = order.remaining();
        if mine <= theirs {
            mine
        } else {
            theirs
        }
    }

    /// Only limit orders may rest in the book.
    pub fn is_bookable(&self) -> (r: bool)
        ensures
            r == self.spec_is_bookable(),
    {
        match self.type_ {
            OrderType::Limit { .. } => true,
            OrderType::Market { .. } => false,
        }
    }

    pub fn is_closed(&self) -> (r: bool)
        ensures
            r == self.spec_is_closed(),
    {
        match self.status {
            OrderStatus::Cancelled | OrderStatus::Closed | OrderStatus::Completed => true,
            OrderStatus::Open | OrderStatus::Partial => false,
        }
    }

    /// Whether taker `self` may execute against resting maker `maker`:
    /// neither closed, the maker priced, and either a market taker or a
    /// limit taker whose price crosses the maker's.
    pub fn matches(&self, maker: &Order) -> (r: bool)
        ensures
            r == self.spec_matches(*maker),
    {
        if self.is_closed() || maker.is_closed() {
            return false;
        }
        let maker_price = match maker.type_ {
            OrderType::Limit { limit_price, .. } => limit_price,
            OrderType::Market { .. } => {
                return false;
            },
        };
        match self.type_ {
            OrderType::Limit { limit_price, .. } => match (self.side, maker.side) {
                (OrderSide::Ask, OrderSide::Bid) => limit_price <= maker_price,
                (OrderSide::Bid, OrderSide::Ask) => limit_price >= maker_price,
                _ => false,
            },
            OrderType::Market { .. } => true,
        }
    }

    /// Record an execution of `quantity` against this order. Fails with
    /// `Overfill`, leaving the order unchanged, exactly when the quantity
    /// exceeds what remains; otherwise the fill grows and the status becomes
    /// Completed (exactly full) or Partial. A terminal order admits no
    /// further mutation, so a closed order may not be filled at all.
    pub fn fill(&mut self, quantity: OrderQuantity) -> (r: Result<(), OrderError>)
        requires
            old(self).wf(),
            !old(self).spec_is_closed(),
        ensures
            final(self).wf(),
            quantity > old(self).spec_remaining() ==> {
                &&& r == Err::<(), OrderError>(OrderError::Overfill {
                    fill: quantity,
                    remaining: (old(self).order_quantity - old(self).filled_quantity)
                        as OrderQuantity,
                })
                &&& *final(self) == *old(self)
            },
            quantity <= old(self).spec_remaining() ==> {
                &&& r == Ok::<(), OrderError>(())
                &&& *final(self) == (Order {
                    filled_quantity: (old(self).filled_quantity + quantity) as OrderQuantity,
                    status: if old(self).filled_quantity + quantity == old(self).order_quantity {
                        OrderStatus::Completed
                    } else {
                        OrderStatus::Partial
                    },
                    ..*old(self)
                })
            },
    {
        let remaining = self.remaining();
        if quantity > remaining {
            return Err(OrderError::Overfill { fill: quantity, remaining });
        }
        self.filled_quantity = self.filled_quantity + quantity;
        self.status = if self.filled_quantity == self.order_quantity {
            OrderStatus::Completed
        } else {
            OrderStatus::Partial
        };
        Ok(())
    }

    /// The status after a cancel: Open cancels to Cancelled, Partial closes
    /// to Closed, and a terminal order is left as it is.
    pub open spec fn spec_cancelled(self) -> Order {
        match self.status {
            OrderStatus::Open => Order { status: OrderStatus::Cancelled, ..self },
            OrderStatus::Partial => Order { status: OrderStatus::Closed, ..self },
            _ => self,
        }
    }

    pub fn cancel(&mut self)
        ensures
            *final(self) == old(self).spec_cancelled(),
    {
        match self.status {
            OrderStatus::Open => self.status = OrderStatus::Cancelled,
            OrderStatus::Partial => self.status = OrderStatus::Closed,
            _ => (),
        }
    }

    /// Replace the order type; the fill accounting is untouched.
    pub fn mutate_type(&mut self, order_type: OrderType)
        ensures
            *final(self) == (Order { type_: order_type, ..*old(self) }),
    {
        self.type_ = order_type;
    }
}

pub trait OrderFeatures {
    spec fn fill_or_kill_spec(&self) -> bool;

    spec fn immediate_or_cancel_spec(&self) -> bool;

    spec fn post_only_spec(&self) -> bool;

    fn is_fill_or_kill(&self) -> (r: bool)
        ensures
            r == self.fill_or_kill_spec(),
    ;

    fn is_immediate_or_cancel(&self) -> (r: bool)
        ensures
            r == self.immediate_or_cancel_spec(),
    ;

    fn is_post_only(&self) -> (r: bool)
        ensures
            r == self.post_only_spec(),
    ;
}

impl OrderFeatures for Order {
    open spec fn fill_or_kill_spec(&self) -> bool {
        self.spec_is_fill_or_kill()
    }

    open spec fn immediate_or_cancel_spec(&self) -> bool {
        self.spec_is_immediate_or_cancel()
    }

    open spec fn post_only_spec(&self) -> bool {
        self.spec_is_post_only()
    }

    fn is_fill_or_kill(&self) -> (r: bool) {
        match self.type_ {
            OrderType::Limit { time_in_force, .. } => match time_in_force {
                TimeInForce::ImmediateOrCancel { fill_or_kill } => fill_or_kill,
                TimeInForce::GoodTilCancel { .. } => false,
            },
            OrderType::Market { fill_or_kill } => fill_or_kill,
        }
    }

    fn is_immediate_or_cancel(&self) -> (r: bool) {
        match self.type_ {
            OrderType::Limit { time_in_force, .. } => match time_in_force {
                TimeInForce::ImmediateOrCancel { .. } => true,
                TimeInForce::GoodTilCancel { .. } => false,
            },
            OrderType::Market { .. } => true,
        }
    }

    fn is_post_only(&self) -> (r: bool) {
        match self.type_ {
            OrderType::Limit { time_in_force, .. } => match time_in_force {
                TimeInForce::GoodTilCancel { post_only } => post_only,
                TimeInForce::ImmediateOrCancel { .. } => false,
            },
            OrderType::Market { .. } => false,
        }
    }
}

/// An order request as the engine receives it from the host. A missing
/// limit price makes the created order a market order.
#[derive(Clone, Debug)]
pub enum OrderRequest {
    Create {
        account_id: String,
        order_id: u64,
        pair: String,
        side: OrderSide,
        limit_price: Option<OrderPrice>,
        quantity: OrderQuantity,
    },
    Cancel { order_id: u64 },
}

} // verus!
