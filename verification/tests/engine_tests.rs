use matching_engine::book::LevelView;
use matching_engine::book::Orderbook;
use matching_engine::engine::Engine;
use matching_engine::engine::EngineError;
use matching_engine::order::Order;
use matching_engine::order::OrderId;
use matching_engine::order::OrderRequest;
use matching_engine::order::OrderSide;
use matching_engine::order::OrderStatus;
use matching_engine::order::OrderType;
use matching_engine::order::TimeInForce;

const PAIR: &str = "ETH/USDT";

fn units(x: u64) -> u128 {
    x as u128 * 100_000_000
}

fn create(order_id: u64, side: OrderSide, limit_price: Option<u128>, quantity: u128) -> OrderRequest {
    OrderRequest::Create {
        account_id: "1".to_string(),
        order_id,
        pair: PAIR.to_string(),
        side,
        limit_price,
        quantity,
    }
}

fn views(engine: &Engine) -> (Vec<LevelView>, Vec<LevelView>) {
    engine.book_view()
}

#[test]
fn scenario_partial_fill_at_same_price() {
    // book: ASK 70@14; taker BID 20@14 -> one trade 20@14, ask 50 left
    let mut engine = Engine::new(PAIR);
    engine.process(create(901_070_014, OrderSide::Ask, Some(units(14)), units(70))).unwrap();
    engine.process(create(900_020_014, OrderSide::Bid, Some(units(14)), units(20))).unwrap();

    let trades = engine.drain_trades();
    assert_eq!(trades.len(), 1);
    assert_eq!(trades[0].taker_id, OrderId::new(900_020_014));
    assert_eq!(trades[0].maker_id, OrderId::new(901_070_014));
    assert_eq!(trades[0].price, units(14));
    assert_eq!(trades[0].quantity, units(20));
    assert_eq!(trades[0].sequence, 0);

    let (asks, bids) = views(&engine);
    assert_eq!(asks, vec![LevelView { price: units(14), quantity: units(50), order_count: 1 }]);
    assert_eq!(bids, vec![]);
}

#[test]
fn scenario_maker_priced_fill() {
    // book: ASK 50@13; taker BID 20@14 -> trade at the maker's price 13
    let mut engine = Engine::new(PAIR);
    engine.process(create(901_050_013, OrderSide::Ask, Some(units(13)), units(50))).unwrap();
    engine.process(create(900_020_014, OrderSide::Bid, Some(units(14)), units(20))).unwrap();

    let trades = engine.drain_trades();
    assert_eq!(trades.len(), 1);
    assert_eq!(trades[0].price, units(13));
    assert_eq!(trades[0].quantity, units(20));

    let (asks, bids) = views(&engine);
    assert_eq!(asks, vec![LevelView { price: units(13), quantity: units(30), order_count: 1 }]);
    assert_eq!(bids, vec![]);
}

#[test]
fn scenario_no_cross_rests() {
    // book: ASK 70@14; taker BID 40@13 -> no trade, the bid rests
    let mut engine = Engine::new(PAIR);
    engine.process(create(901_070_014, OrderSide::Ask, Some(units(14)), units(70))).unwrap();
    engine.process(create(900_040_013, OrderSide::Bid, Some(units(13)), units(40))).unwrap();

    assert_eq!(engine.drain_trades().len(), 0);
    let (asks, bids) = views(&engine);
    assert_eq!(asks, vec![LevelView { price: units(14), quantity: units(70), order_count: 1 }]);
    assert_eq!(bids, vec![LevelView { price: units(13), quantity: units(40), order_count: 1 }]);
}

#[test]
fn scenario_sweep_two_levels() {
    // book: ASK 50@13, ASK 70@14; taker BID 100@15 -> 50@13 then 50@14
    let mut engine = Engine::new(PAIR);
    engine.process(create(901_050_013, OrderSide::Ask, Some(units(13)), units(50))).unwrap();
    engine.process(create(901_070_014, OrderSide::Ask, Some(units(14)), units(70))).unwrap();
    engine.process(create(900_100_015, OrderSide::Bid, Some(units(15)), units(100))).unwrap();

    let trades = engine.drain_trades();
    assert_eq!(trades.len(), 2);
    assert_eq!(trades[0].price, units(13));
    assert_eq!(trades[0].quantity, units(50));
    assert_eq!(trades[0].maker_id, OrderId::new(901_050_013));
    assert_eq!(trades[1].price, units(14));
    assert_eq!(trades[1].quantity, units(50));
    assert_eq!(trades[1].maker_id, OrderId::new(901_070_014));
    // price-time priority: the cheaper maker traded first, makers distinct
    assert!(trades[0].price <= trades[1].price);
    assert_ne!(trades[0].maker_id, trades[1].maker_id);
    // sequence numbers strictly increase
    assert!(trades[0].sequence < trades[1].sequence);
    // conservation for the taker: the fills add up to the taker quantity
    assert_eq!(trades[0].quantity + trades[1].quantity, units(100));

    let (asks, bids) = views(&engine);
    assert_eq!(asks, vec![LevelView { price: units(14), quantity: units(20), order_count: 1 }]);
    assert_eq!(bids, vec![]);
}

#[test]
fn scenario_market_fok_killed_when_short() {
    // book: ASK 50@13; market BID 100 fill-or-kill -> killed, book untouched
    let mut book = Orderbook::new();
    let ask = Order::limit_order(OrderId::new(901_050_013), OrderSide::Ask, units(50), units(13));
    let (_, trades) = book.match_order(ask, 0);
    assert_eq!(trades.len(), 0);
    let before = book.asks.side_view();

    let mut taker = Order::market_order(OrderId::new(900_100_999), OrderSide::Bid, units(100));
    taker.mutate_type(OrderType::Market { fill_or_kill: true });
    let (result, trades) = book.match_order(taker, 0);

    assert_eq!(trades.len(), 0);
    assert_eq!(result.status(), OrderStatus::Cancelled);
    assert_eq!(book.asks.side_view(), before);
    assert!(!book.contains_order(900_100_999));
}

#[test]
fn scenario_market_fok_fills_when_covered() {
    // book: ASK 50@13, ASK 70@14; market BID 100 fill-or-kill -> both levels hit
    let mut book = Orderbook::new();
    let a1 = Order::limit_order(OrderId::new(901_050_013), OrderSide::Ask, units(50), units(13));
    let a2 = Order::limit_order(OrderId::new(901_070_014), OrderSide::Ask, units(70), units(14));
    book.match_order(a1, 0);
    book.match_order(a2, 0);

    let mut taker = Order::market_order(OrderId::new(900_100_999), OrderSide::Bid, units(100));
    taker.mutate_type(OrderType::Market { fill_or_kill: true });
    let (result, trades) = book.match_order(taker, 0);

    assert_eq!(result.status(), OrderStatus::Completed);
    assert_eq!(trades.len(), 2);
    assert_eq!(trades[0].quantity, units(50));
    assert_eq!(trades[1].quantity, units(50));
}

#[test]
fn scenario_post_only_rests_on_empty_book() {
    // empty book; BID 40@13 post-only -> rests
    let mut book = Orderbook::new();
    let mut taker = Order::limit_order(OrderId::new(900_040_013), OrderSide::Bid, units(40), units(13));
    taker.mutate_type(OrderType::Limit {
        limit_price: units(13),
        time_in_force: TimeInForce::GoodTilCancel { post_only: true },
    });
    let (result, trades) = book.match_order(taker, 0);

    assert_eq!(trades.len(), 0);
    assert_eq!(result.status(), OrderStatus::Open);
    assert!(book.contains_order(900_040_013));
    assert_eq!(
        book.bids.side_view(),
        vec![LevelView { price: units(13), quantity: units(40), order_count: 1 }]
    );
}

#[test]
fn scenario_post_only_crossing_is_killed() {
    // book: ASK 50@13; BID 20@13 post-only would cross -> cancelled, no trade
    let mut book = Orderbook::new();
    let ask = Order::limit_order(OrderId::new(901_050_013), OrderSide::Ask, units(50), units(13));
    book.match_order(ask, 0);
    let before = book.asks.side_view();

    let mut taker = Order::limit_order(OrderId::new(900_020_013), OrderSide::Bid, units(20), units(13));
    taker.mutate_type(OrderType::Limit {
        limit_price: units(13),
        time_in_force: TimeInForce::GoodTilCancel { post_only: true },
    });
    let (result, trades) = book.match_order(taker, 0);

    assert_eq!(trades.len(), 0);
    assert_eq!(result.status(), OrderStatus::Cancelled);
    assert_eq!(book.asks.side_view(), before);
    assert_eq!(book.bids.side_view(), vec![]);
    assert!(!book.contains_order(900_020_013));
}

#[test]
fn market_order_never_rests() {
    let mut engine = Engine::new(PAIR);
    engine.process(create(900_040_999, OrderSide::Bid, None, units(40))).unwrap();
    assert_eq!(engine.drain_trades().len(), 0);
    let (asks, bids) = views(&engine);
    assert_eq!(asks, vec![]);
    assert_eq!(bids, vec![]);
}

#[test]
fn limit_ioc_cancels_residual() {
    // book: ASK 50@13; BID 100@13 IOC -> one trade of 50, residual cancelled
    let mut book = Orderbook::new();
    let ask = Order::limit_order(OrderId::new(901_050_013), OrderSide::Ask, units(50), units(13));
    book.match_order(ask, 0);

    let mut taker = Order::limit_order(OrderId::new(900_100_013), OrderSide::Bid, units(100), units(13));
    taker.mutate_type(OrderType::Limit {
        limit_price: units(13),
        time_in_force: TimeInForce::ImmediateOrCancel { fill_or_kill: false },
    });
    let (result, trades) = book.match_order(taker, 0);

    assert_eq!(trades.len(), 1);
    assert_eq!(trades[0].quantity, units(50));
    assert_eq!(result.status(), OrderStatus::Closed);
    assert!(!book.contains_order(900_100_013));
    assert_eq!(book.asks.side_view(), vec![]);
    assert_eq!(book.bids.side_view(), vec![]);
}

#[test]
fn cancel_unknown_id_is_noop() {
    let mut engine = Engine::new(PAIR);
    engine.process(create(901_070_014, OrderSide::Ask, Some(units(14)), units(70))).unwrap();
    let before = views(&engine);

    engine.process(OrderRequest::Cancel { order_id: 424_242 }).unwrap();

    assert_eq!(views(&engine), before);
    assert_eq!(engine.drain_trades().len(), 0);
}

#[test]
fn cancel_then_resubmit_restores_book() {
    let mut engine = Engine::new(PAIR);
    engine.process(create(901_070_014, OrderSide::Ask, Some(units(14)), units(70))).unwrap();
    engine.process(create(900_040_013, OrderSide::Bid, Some(units(13)), units(40))).unwrap();
    let before = views(&engine);

    engine.process(OrderRequest::Cancel { order_id: 900_040_013 }).unwrap();
    assert!(!engine.orderbook().contains_order(900_040_013));
    engine.process(create(900_040_013, OrderSide::Bid, Some(units(13)), units(40))).unwrap();

    assert_eq!(views(&engine), before);
    assert!(engine.orderbook().contains_order(900_040_013));
    assert_eq!(engine.drain_trades().len(), 0);
}

#[test]
fn cancel_removes_level_and_later_orders_stay() {
    let mut engine = Engine::new(PAIR);
    engine.process(create(1, OrderSide::Ask, Some(units(13)), units(50))).unwrap();
    engine.process(create(2, OrderSide::Ask, Some(units(13)), units(20))).unwrap();
    engine.process(create(3, OrderSide::Ask, Some(units(14)), units(10))).unwrap();

    engine.process(OrderRequest::Cancel { order_id: 1 }).unwrap();

    let (asks, _) = views(&engine);
    assert_eq!(
        asks,
        vec![
            LevelView { price: units(13), quantity: units(20), order_count: 1 },
            LevelView { price: units(14), quantity: units(10), order_count: 1 },
        ]
    );

    engine.process(OrderRequest::Cancel { order_id: 2 }).unwrap();
    let (asks, _) = views(&engine);
    assert_eq!(asks, vec![LevelView { price: units(14), quantity: units(10), order_count: 1 }]);
}

#[test]
fn fifo_within_a_level() {
    // two asks at one price: the older one is filled first
    let mut engine = Engine::new(PAIR);
    engine.process(create(11, OrderSide::Ask, Some(units(13)), units(30))).unwrap();
    engine.process(create(12, OrderSide::Ask, Some(units(13)), units(30))).unwrap();
    engine.process(create(21, OrderSide::Bid, Some(units(13)), units(40))).unwrap();

    let trades = engine.drain_trades();
    assert_eq!(trades.len(), 2);
    assert_eq!(trades[0].maker_id, OrderId::new(11));
    assert_eq!(trades[0].quantity, units(30));
    assert_eq!(trades[1].maker_id, OrderId::new(12));
    assert_eq!(trades[1].quantity, units(10));
}

#[test]
fn invalid_pair_is_rejected() {
    let mut engine = Engine::new(PAIR);
    let request = OrderRequest::Create {
        account_id: "1".to_string(),
        order_id: 7,
        pair: "BTC/USDT".to_string(),
        side: OrderSide::Bid,
        limit_price: Some(units(13)),
        quantity: units(40),
    };
    let result = engine.process(request);
    assert_eq!(
        result,
        Err(EngineError::InvalidPair {
            expected: PAIR.to_string(),
            found: "BTC/USDT".to_string()
        })
    );
    let (asks, bids) = views(&engine);
    assert_eq!(asks, vec![]);
    assert_eq!(bids, vec![]);
}

#[test]
fn sequences_continue_across_calls() {
    let mut engine = Engine::new(PAIR);
    engine.process(create(1, OrderSide::Ask, Some(units(13)), units(10))).unwrap();
    engine.process(create(2, OrderSide::Ask, Some(units(14)), units(10))).unwrap();
    engine.process(create(3, OrderSide::Bid, Some(units(13)), units(10))).unwrap();
    engine.process(create(4, OrderSide::Bid, Some(units(14)), units(10))).unwrap();

    let trades = engine.drain_trades();
    assert_eq!(trades.len(), 2);
    assert_eq!(trades[0].sequence, 0);
    assert_eq!(trades[1].sequence, 1);
}

#[test]
fn drain_trades_clears_the_buffer() {
    let mut engine = Engine::new(PAIR);
    engine.process(create(1, OrderSide::Ask, Some(units(13)), units(10))).unwrap();
    engine.process(create(2, OrderSide::Bid, Some(units(13)), units(10))).unwrap();
    assert_eq!(engine.drain_trades().len(), 1);
    assert_eq!(engine.drain_trades().len(), 0);
}

#[test]
fn generated_requests_are_plausible() {
    let requests = matching_engine::util::generate(1, 200);
    assert_eq!(requests.len(), 200);
    for (k, request) in requests.iter().enumerate() {
        let id = 1 + k as u64;
        match request {
            OrderRequest::Cancel { order_id } => {
                assert!(*order_id >= 1 && *order_id <= id);
            }
            OrderRequest::Create { order_id, pair, limit_price, quantity, .. } => {
                assert_eq!(*order_id, id);
                assert_eq!(pair, matching_engine::util::DEFAULT_PAIR);
                assert!(*quantity >= 10_000 * 1_000_000 && *quantity < 1_000_000 * 1_000_000);
                assert_eq!(*quantity % 1_000_000, 0);
                if let Some(p) = limit_price {
                    assert!(*p >= 10_000 * 1_000_000 && *p < 1_000_000 * 1_000_000);
                }
            }
        }
    }
}

#[test]
fn generated_stream_runs_through_the_engine() {
    let mut engine = Engine::new(matching_engine::util::DEFAULT_PAIR);
    for request in matching_engine::util::generate(1, 500) {
        if let OrderRequest::Create { order_id, .. } = &request {
            // ids are unique across the engine lifetime by construction;
            // a duplicate would break that assumption
            assert!(!engine.orderbook().contains_order(*order_id));
        }
        engine.process(request).unwrap();
    }
    let trades = engine.drain_trades();
    for pair in trades.windows(2) {
        assert!(pair[0].sequence < pair[1].sequence);
    }
}
