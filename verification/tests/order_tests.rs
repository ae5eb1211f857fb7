use matching_engine::order::Order;
use matching_engine::order::OrderError;
use matching_engine::order::OrderFeatures;
use matching_engine::order::OrderId;
use matching_engine::order::OrderSide;
use matching_engine::order::OrderStatus;
use matching_engine::order::OrderType;
use matching_engine::order::TimeInForce;

// id convention: 3-digit side (bid = 900, ask = 901), 3-digit quantity,
// 3-digit price (market orders always 999); decimals as 10^-8 units

fn units(x: u64) -> u128 {
    x as u128 * 100_000_000
}

fn ask_050_at_013() -> Order {
    Order::limit_order(OrderId::new(901_050_013), OrderSide::Ask, units(50), units(13))
}

fn ask_070_at_014() -> Order {
    Order::limit_order(OrderId::new(901_070_014), OrderSide::Ask, units(70), units(14))
}

fn ask_070_at_market() -> Order {
    Order::market_order(OrderId::new(901_070_999), OrderSide::Ask, units(70))
}

fn bid_020_at_014() -> Order {
    Order::limit_order(OrderId::new(900_020_014), OrderSide::Bid, units(20), units(14))
}

fn bid_040_at_013() -> Order {
    Order::limit_order(OrderId::new(900_040_013), OrderSide::Bid, units(40), units(13))
}

fn bid_040_at_market() -> Order {
    Order::market_order(OrderId::new(900_040_999), OrderSide::Bid, units(40))
}

fn assert_opposite_side(ask: &Order, bid: &Order) {
    assert_ne!(ask.side(), bid.side());
    assert_eq!(ask.side(), OrderSide::Ask);
    assert_eq!(bid.side(), OrderSide::Bid);
}

#[test]
fn match_same_price() {
    let ask = ask_070_at_014();
    let bid = bid_020_at_014();
    assert_opposite_side(&ask, &bid);
    assert_eq!(ask.limit_price(), bid.limit_price());
    assert!(ask.matches(&bid));
}

#[test]
fn match_crossing_price() {
    let ask = ask_050_at_013();
    let bid = bid_020_at_014();
    assert_opposite_side(&ask, &bid);
    assert!(ask.limit_price().unwrap() < bid.limit_price().unwrap());
    assert!(ask.matches(&bid));
}

#[test]
fn no_match() {
    let ask = ask_070_at_014();
    let bid = bid_040_at_013();
    assert_opposite_side(&ask, &bid);
    assert!(ask.limit_price().unwrap() > bid.limit_price().unwrap());
    assert!(!ask.matches(&bid));
}

#[test]
fn match_bid() {
    let ask = ask_070_at_014();
    let bid = bid_040_at_market();
    assert_ne!(ask.limit_price(), None);
    assert_eq!(bid.limit_price(), None);
    // a market taker matches; a market maker never does
    assert!(bid.matches(&ask));
    assert!(!ask.matches(&bid));
}

#[test]
fn match_ask() {
    let ask = ask_070_at_market();
    let bid = bid_040_at_013();
    assert_ne!(bid.limit_price(), None);
    assert_eq!(ask.limit_price(), None);
    assert!(ask.matches(&bid));
    assert!(!bid.matches(&ask));
}

#[test]
fn check_defaults() {
    let gtc = TimeInForce::GoodTilCancel { post_only: false };
    assert_eq!(TimeInForce::default(), gtc);
}

#[test]
fn is_fill_or_kill() {
    let mut market_order = ask_070_at_market();
    assert!(!market_order.is_fill_or_kill());

    market_order.mutate_type(OrderType::Market { fill_or_kill: true });
    assert!(market_order.is_fill_or_kill());

    let mut limit_order = bid_040_at_013();
    assert!(!limit_order.is_fill_or_kill());

    limit_order.mutate_type(OrderType::Limit {
        limit_price: 0,
        time_in_force: TimeInForce::ImmediateOrCancel { fill_or_kill: true },
    });
    assert!(limit_order.is_fill_or_kill());
}

#[test]
fn is_post_only() {
    let market_order = ask_070_at_market();
    assert!(!market_order.is_post_only());

    let mut limit_order = bid_040_at_013();
    assert!(!limit_order.is_post_only());

    limit_order.mutate_type(OrderType::Limit {
        limit_price: 0,
        time_in_force: TimeInForce::GoodTilCancel { post_only: false },
    });
    assert!(!limit_order.is_post_only());

    limit_order.mutate_type(OrderType::Limit {
        limit_price: 0,
        time_in_force: TimeInForce::GoodTilCancel { post_only: true },
    });
    assert!(limit_order.is_post_only());
}

#[test]
fn is_immediate_or_cancel() {
    let market_order = ask_070_at_market();
    assert!(market_order.is_immediate_or_cancel());

    let mut limit_order = bid_040_at_013();
    assert!(!limit_order.is_immediate_or_cancel());

    limit_order.mutate_type(OrderType::Limit {
        limit_price: 0,
        time_in_force: TimeInForce::ImmediateOrCancel { fill_or_kill: false },
    });
    assert!(limit_order.is_immediate_or_cancel());
}

#[test]
fn fill_partial_then_complete() {
    let mut order = ask_070_at_014();
    assert_eq!(order.remaining(), units(70));
    assert_eq!(order.fill(units(20)), Ok(()));
    assert_eq!(order.status(), OrderStatus::Partial);
    assert_eq!(order.remaining(), units(50));
    assert_eq!(order.fill(units(50)), Ok(()));
    assert_eq!(order.status(), OrderStatus::Completed);
    assert_eq!(order.remaining(), 0);
    assert!(order.is_closed());
}

#[test]
fn fill_rejects_overfill() {
    let mut order = ask_050_at_013();
    let result = order.fill(units(60));
    assert_eq!(
        result,
        Err(OrderError::Overfill { fill: units(60), remaining: units(50) })
    );
    // the failed fill left the order untouched
    assert_eq!(order.remaining(), units(50));
    assert_eq!(order.status(), OrderStatus::Open);
}

#[test]
fn cancel_transitions() {
    let mut fresh = ask_050_at_013();
    fresh.cancel();
    assert_eq!(fresh.status(), OrderStatus::Cancelled);

    let mut partial = ask_070_at_014();
    assert_eq!(partial.fill(units(10)), Ok(()));
    partial.cancel();
    assert_eq!(partial.status(), OrderStatus::Closed);

    // cancelling a terminal order is a no-op
    let mut done = ask_070_at_014();
    assert_eq!(done.fill(units(70)), Ok(()));
    done.cancel();
    assert_eq!(done.status(), OrderStatus::Completed);
}

#[test]
fn can_trade_is_min_remaining() {
    let ask = ask_070_at_014();
    let bid = bid_020_at_014();
    assert_eq!(ask.can_trade(&bid), units(20));
    assert_eq!(bid.can_trade(&ask), units(20));
}

#[test]
fn opposite_is_involution() {
    assert_eq!(OrderSide::Ask.opposite(), OrderSide::Bid);
    assert_eq!(OrderSide::Bid.opposite(), OrderSide::Ask);
    assert_eq!(OrderSide::Ask.opposite().opposite(), OrderSide::Ask);
    assert_eq!(OrderSide::Bid.opposite().opposite(), OrderSide::Bid);
}

#[test]
fn closed_orders_never_match() {
    let mut ask = ask_050_at_013();
    let bid = bid_020_at_014();
    ask.cancel();
    assert!(!ask.matches(&bid));
    assert!(!bid.matches(&ask));
}
