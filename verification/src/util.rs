use vstd::prelude::*;

use rand::Rng;

use crate::order::OrderQuantity;
use crate::order::OrderRequest;
use crate::order::OrderSide;

verus! {

broadcast use vstd::string::group_string_axioms;

/// The pair label the generated requests carry.
pub const DEFAULT_PAIR: &'static str = "ETH/USDT";

#[verifier::external_type_specification]
#[verifier::external_body]
pub struct ExThreadRng(rand::rngs::ThreadRng);

/// Relies on rand::thread_rng: a handle to the thread-local generator.
/// Nothing is promised of the values it will yield.
#[verifier::external_body]
fn fresh_rng() -> rand::rngs::ThreadRng {
    rand::thread_rng()
}

/// Relies on rand::Rng::gen_range: a uniformly drawn value in the
/// half-open range. It panics on an empty range, which the precondition
/// rules out; nothing else is promised of the draw.
#[verifier::external_body]
fn gen_range_u64(rng: &mut rand::rngs::ThreadRng, lo: u64, hi: u64) -> (r: u64)
    requires
        lo < hi,
    ensures
        lo <= r < hi,
{
    rng.gen_range(lo..hi)
}

/// A random quantity (or price): a mantissa of two decimal places drawn
/// from [100.00, 10000.00), held as a count of 10^-8 units.
pub fn random_decimal(rng: &mut rand::rngs::ThreadRng) -> (r: OrderQuantity)
    ensures
        10_000 * 1_000_000 <= r < 1_000_000 * 1_000_000,
        r % 1_000_000 == 0,
{
    let mantissa = gen_range_u64(rng, 10_000, 1_000_000);
    (mantissa as OrderQuantity) * 1_000_000
}

/// What one generated request looks like: mostly creates under the
/// default pair, with two-decimal-place quantities and prices in
/// [100.00, 10000.00), rarely a cancel of an earlier id.
pub open spec fn generated_request_ok(req: OrderRequest, id: u64) -> bool {
    match req {
        OrderRequest::Cancel { order_id } => 1 <= order_id <= id,
        OrderRequest::Create { order_id, pair, limit_price, quantity, .. } => {
            &&& order_id == id
            &&& pair@ == DEFAULT_PAIR@
            &&& 10_000 * 1_000_000 <= quantity < 1_000_000 * 1_000_000
            &&& quantity % 1_000_000 == 0
            &&& (limit_price matches Some(p) ==> 10_000 * 1_000_000 <= p < 1_000_000 * 1_000_000
                && p % 1_000_000 == 0)
        },
    }
}

/// A random stream of order requests with ids `start`, `start + 1`, ...:
/// about one request in a thousand cancels an already used id, the rest
/// create orders, four in five of them limit orders.
pub fn generate(start: u64, count: usize) -> (r: Vec<OrderRequest>)
    requires
        start >= 1,
        start + count <= u64::MAX,
    ensures
        r@.len() == count,
        forall|k: int|
            0 <= k < r@.len() ==> generated_request_ok(#[trigger] r@[k], (start + k) as u64),
{
    let mut rng = fresh_rng();
    let mut out: Vec<OrderRequest> = Vec::new();
    let mut k: usize = 0;
    while k < count
        invariant
            start >= 1,
            start + count <= u64::MAX,
            k <= count,
            out@.len() == k,
            forall|m: int|
                0 <= m < out@.len() ==> generated_request_ok(
                    #[trigger] out@[m],
                    (start + m) as u64,
                ),
        decreases count - k,
    {
        let id = start + (k as u64);
        let req = if gen_range_u64(&mut rng, 0, 1000) == 0 {
            OrderRequest::Cancel { order_id: gen_range_u64(&mut rng, 1, id + 1) }
        } else {
            OrderRequest::Create {
                account_id: gen_range_u64(&mut rng, 1, 10).to_string(),
                order_id: id,
                pair: DEFAULT_PAIR.to_string(),
                side: if gen_range_u64(&mut rng, 0, 2) == 0 {
                    OrderSide::Ask
                } else {
                    OrderSide::Bid
                },
                limit_price: if gen_range_u64(&mut rng, 0, 10) < 8 {
                    Some(random_decimal(&mut rng))
                } else {
                    None
                },
                quantity: random_decimal(&mut rng),
            }
        };
        out.push(req);
        k = k + 1;
    }
    out
}

} // verus!
