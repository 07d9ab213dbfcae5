use candlestick_oracle::candles::{build, bucket_start, PriceObservation};
use candlestick_oracle::digits::BigNat;
use candlestick_oracle::events::{
    classify_swap_direction, collect_observations, make_trade_record, normalize, NormalizeError,
    PoolContext, PoolKind, RawEvent, SwapDirection, SwapEvent,
};
use candlestick_oracle::price::{derive_from_reserves, derive_from_sqrt_price, SqrtPriceQ96};
use candlestick_oracle::rat::Rat;
use candlestick_oracle::render::{format_token_amount, render_candle, render_rat};
use candlestick_oracle::volume::{estimate_from_reserves, estimate_from_swap};

fn dec(n: u128, exp: i32) -> Rat {
    Rat::decimal(BigNat::from_u128(n), exp)
}

fn obs(timestamp: u64, price_units: u128) -> PriceObservation {
    PriceObservation {
        timestamp,
        price: dec(price_units, 0),
        volume: dec(1, 0),
    }
}

/// A Sync payload: two 32-byte words, each a right-aligned uint112.
fn sync_payload(reserve0: u128, reserve1: u128) -> Vec<u8> {
    let mut data = vec![0u8; 64];
    data[18..32].copy_from_slice(&reserve0.to_be_bytes()[2..16]);
    data[50..64].copy_from_slice(&reserve1.to_be_bytes()[2..16]);
    data
}

/// A slot0-style payload: one 32-byte word holding a right-aligned uint160.
fn sqrt_payload(hi: u32, lo: u128) -> Vec<u8> {
    let mut data = vec![0u8; 32];
    data[12..16].copy_from_slice(&hi.to_be_bytes());
    data[16..32].copy_from_slice(&lo.to_be_bytes());
    data
}

fn cp_ctx(decimals0: u8, decimals1: u8) -> PoolContext {
    PoolContext {
        kind: PoolKind::ConstantProduct,
        decimals0,
        decimals1,
    }
}

#[test]
fn reserves_price_is_exact_ratio() {
    // price = (r1 / r0) * 10^(d0 - d1) = 1/2
    let p = derive_from_reserves(2, 1, 18, 18);
    assert_eq!(
        render_rat(&p, 32),
        "0.50000000000000000000000000000000"
    );
}

#[test]
fn reserves_price_decimal_scaling() {
    // r1/r0 = 3, d0 - d1 = -2, so price = 0.03
    let p = derive_from_reserves(1, 3, 6, 8);
    assert_eq!(
        render_rat(&p, 32),
        "0.03000000000000000000000000000000"
    );
}

#[test]
fn zero_reserve_gives_zero_price() {
    let p = derive_from_reserves(0, 5, 18, 18);
    assert!(p.is_zero());
    let q = derive_from_reserves(5, 0, 18, 18);
    assert!(q.is_zero());
}

#[test]
fn sqrt_price_of_one_is_one() {
    // sqrtPriceQ96 = 2^96 means sqrt(price) = 1, so price = 1.
    let sp = SqrtPriceQ96 {
        hi: 0,
        lo: 1u128 << 96,
    };
    let p = derive_from_sqrt_price(&sp, 18, 18);
    assert_eq!(
        render_rat(&p, 32),
        "1.00000000000000000000000000000000"
    );
}

#[test]
fn sqrt_price_squares_the_ratio() {
    // sqrtPriceQ96 = 2^97 means sqrt(price) = 2, so price = 4.
    let sp = SqrtPriceQ96 {
        hi: 0,
        lo: 1u128 << 97,
    };
    let p = derive_from_sqrt_price(&sp, 18, 18);
    assert_eq!(
        render_rat(&p, 32),
        "4.00000000000000000000000000000000"
    );
}

#[test]
fn sqrt_price_monotone_in_raw_value() {
    let lower = derive_from_sqrt_price(
        &SqrtPriceQ96 {
            hi: 0,
            lo: 123456789 << 40,
        },
        6,
        18,
    );
    let higher = derive_from_sqrt_price(
        &SqrtPriceQ96 {
            hi: 0,
            lo: 123456790 << 40,
        },
        6,
        18,
    );
    assert!(lower.le(&higher));
    assert!(!higher.le(&lower) || lower.eq_val(&higher));
}

#[test]
fn bucket_alignment_examples() {
    assert_eq!(bucket_start(100, 60), 60);
    assert_eq!(bucket_start(130, 60), 120);
    assert_eq!(bucket_start(170, 60), 120);
    assert_eq!(bucket_start(59, 60), 0);
    assert_eq!(bucket_start(60, 60), 60);
    assert_eq!(bucket_start(0, 1), 0);
}

#[test]
fn scenario_two_buckets() {
    // Observations (t=100, p=10), (t=130, p=12), (t=170, p=9), interval 60s:
    // bucket [60,120): open = close = high = low = 10;
    // bucket [120,180): open = 12, close = 9, high = 12, low = 9.
    let series = build(vec![obs(100, 10), obs(130, 12), obs(170, 9)], 60);
    assert_eq!(series.observations_consumed, 3);
    assert_eq!(series.candles_emitted, 2);
    assert_eq!(series.candles.len(), 2);

    let first = &series.candles[0];
    assert_eq!(first.bucket_start, 60);
    assert!(first.open.eq_val(&dec(10, 0)));
    assert!(first.close.eq_val(&dec(10, 0)));
    assert!(first.high.eq_val(&dec(10, 0)));
    assert!(first.low.eq_val(&dec(10, 0)));
    assert!(first.volume.eq_val(&dec(1, 0)));

    let second = &series.candles[1];
    assert_eq!(second.bucket_start, 120);
    assert!(second.open.eq_val(&dec(12, 0)));
    assert!(second.close.eq_val(&dec(9, 0)));
    assert!(second.high.eq_val(&dec(12, 0)));
    assert!(second.low.eq_val(&dec(9, 0)));
    assert!(second.volume.eq_val(&dec(2, 0)));
}

#[test]
fn build_is_permutation_invariant() {
    let orderings: Vec<Vec<PriceObservation>> = vec![
        vec![obs(100, 10), obs(130, 12), obs(170, 9)],
        vec![obs(170, 9), obs(100, 10), obs(130, 12)],
        vec![obs(130, 12), obs(170, 9), obs(100, 10)],
    ];
    let mut rendered: Vec<Vec<(u64, String, String, String, String, String)>> = Vec::new();
    for input in orderings {
        let series = build(input, 60);
        let mut one = Vec::new();
        for c in &series.candles {
            let rec = render_candle(c);
            one.push((
                rec.timestamp_ms,
                rec.open,
                rec.high,
                rec.low,
                rec.close,
                rec.volume,
            ));
        }
        rendered.push(one);
    }
    assert_eq!(rendered[0], rendered[1]);
    assert_eq!(rendered[1], rendered[2]);
}

#[test]
fn equal_timestamps_still_deterministic() {
    let a = vec![obs(100, 10), obs(100, 12)];
    let b = vec![obs(100, 12), obs(100, 10)];
    let sa = build(a, 60);
    let sb = build(b, 60);
    assert_eq!(sa.candles.len(), 1);
    assert_eq!(sb.candles.len(), 1);
    let ra = render_candle(&sa.candles[0]);
    let rb = render_candle(&sb.candles[0]);
    assert_eq!(ra.open, rb.open);
    assert_eq!(ra.close, rb.close);
    assert_eq!(ra.high, rb.high);
    assert_eq!(ra.low, rb.low);
    assert_eq!(ra.volume, rb.volume);
    // High and low still bracket both prices.
    assert!(sa.candles[0].high.eq_val(&dec(12, 0)));
    assert!(sa.candles[0].low.eq_val(&dec(10, 0)));
}

#[test]
fn no_empty_buckets_between_sparse_observations() {
    // Observations three intervals apart: only two candles, no empty ones.
    let series = build(vec![obs(100, 10), obs(250, 20)], 60);
    assert_eq!(series.candles.len(), 2);
    assert_eq!(series.candles[0].bucket_start, 60);
    assert_eq!(series.candles[1].bucket_start, 240);
}

#[test]
fn empty_input_builds_empty_series() {
    let series = build(Vec::new(), 60);
    assert_eq!(series.observations_consumed, 0);
    assert_eq!(series.candles_emitted, 0);
    assert!(series.candles.is_empty());
}

#[test]
fn ohlc_invariant_on_wandering_prices() {
    let series = build(
        vec![obs(10, 7), obs(20, 3), obs(30, 11), obs(40, 5)],
        3600,
    );
    assert_eq!(series.candles.len(), 1);
    let c = &series.candles[0];
    assert!(c.low.le(&c.open));
    assert!(c.low.le(&c.close));
    assert!(c.open.le(&c.high));
    assert!(c.close.le(&c.high));
    assert!(c.open.eq_val(&dec(7, 0)));
    assert!(c.close.eq_val(&dec(5, 0)));
    assert!(c.high.eq_val(&dec(11, 0)));
    assert!(c.low.eq_val(&dec(3, 0)));
}

#[test]
fn direction_buy() {
    let swap = SwapEvent {
        amount0_in: 5,
        amount1_in: 0,
        amount0_out: 0,
        amount1_out: 3,
        timestamp: 1,
    };
    assert_eq!(classify_swap_direction(&swap), SwapDirection::Buy);
}

#[test]
fn direction_sell() {
    let swap = SwapEvent {
        amount0_in: 0,
        amount1_in: 7,
        amount0_out: 2,
        amount1_out: 0,
        timestamp: 1,
    };
    assert_eq!(classify_swap_direction(&swap), SwapDirection::Sell);
}

#[test]
fn direction_ambiguous() {
    let all_zero = SwapEvent {
        amount0_in: 0,
        amount1_in: 0,
        amount0_out: 0,
        amount1_out: 0,
        timestamp: 1,
    };
    assert_eq!(classify_swap_direction(&all_zero), SwapDirection::Ambiguous);
    let both_active = SwapEvent {
        amount0_in: 1,
        amount1_in: 1,
        amount0_out: 1,
        amount1_out: 1,
        timestamp: 1,
    };
    assert_eq!(
        classify_swap_direction(&both_active),
        SwapDirection::Ambiguous
    );
}

#[test]
fn normalize_constant_product_event() {
    let ev = RawEvent {
        payload: sync_payload(2, 1),
        block_timestamp: Some(1000),
    };
    let o = normalize(&ev, &cp_ctx(18, 18)).expect("well-formed event");
    assert_eq!(o.timestamp, 1000);
    assert_eq!(
        render_rat(&o.price, 32),
        "0.50000000000000000000000000000000"
    );
}

#[test]
fn normalize_concentrated_liquidity_event() {
    let ev = RawEvent {
        payload: sqrt_payload(0, 1u128 << 96),
        block_timestamp: Some(7),
    };
    let ctx = PoolContext {
        kind: PoolKind::ConcentratedLiquidity,
        decimals0: 18,
        decimals1: 18,
    };
    let o = normalize(&ev, &ctx).expect("well-formed event");
    assert_eq!(o.timestamp, 7);
    assert_eq!(
        render_rat(&o.price, 32),
        "1.00000000000000000000000000000000"
    );
    assert!(o.volume.is_zero());
}

#[test]
fn normalize_missing_block_data() {
    let ev = RawEvent {
        payload: sync_payload(2, 1),
        block_timestamp: None,
    };
    assert!(matches!(
        normalize(&ev, &cp_ctx(18, 18)),
        Err(NormalizeError::MissingBlockData)
    ));
}

#[test]
fn normalize_zero_reserve_is_division_undefined() {
    let ev = RawEvent {
        payload: sync_payload(0, 9),
        block_timestamp: Some(5),
    };
    assert!(matches!(
        normalize(&ev, &cp_ctx(18, 18)),
        Err(NormalizeError::DivisionUndefined)
    ));
}

#[test]
fn normalize_short_payload_is_malformed() {
    let ev = RawEvent {
        payload: vec![0u8; 63],
        block_timestamp: Some(5),
    };
    assert!(matches!(
        normalize(&ev, &cp_ctx(18, 18)),
        Err(NormalizeError::MalformedPayload)
    ));
}

#[test]
fn normalize_bad_padding_is_decode_failure() {
    let mut payload = sync_payload(2, 1);
    payload[0] = 1;
    let ev = RawEvent {
        payload,
        block_timestamp: Some(5),
    };
    assert!(matches!(
        normalize(&ev, &cp_ctx(18, 18)),
        Err(NormalizeError::DecodeFailure)
    ));
}

#[test]
fn short_payload_skipped_and_rest_aggregates() {
    // One truncated payload among good ones: it is reported, the others
    // still flow through to candles.
    let events = vec![
        RawEvent {
            payload: sync_payload(2, 20),
            block_timestamp: Some(100),
        },
        RawEvent {
            payload: vec![1u8; 10],
            block_timestamp: Some(130),
        },
        RawEvent {
            payload: sync_payload(2, 18),
            block_timestamp: Some(170),
        },
    ];
    let (observations, errors) = collect_observations(&events, &cp_ctx(18, 18));
    assert_eq!(observations.len(), 2);
    assert_eq!(errors, vec![NormalizeError::MalformedPayload]);
    let series = build(observations, 60);
    assert_eq!(series.candles_emitted, 2);
    assert_eq!(series.candles[0].bucket_start, 60);
    assert_eq!(series.candles[1].bucket_start, 120);
    assert!(series.candles[0].open.eq_val(&dec(10, 0)));
    assert!(series.candles[1].open.eq_val(&dec(9, 0)));
}

#[test]
fn volume_heuristic_from_reserves() {
    // (1000/10 + 2000/10) * 0.001 = 0.3
    let v = estimate_from_reserves(1000, 2000, 1, 1);
    assert_eq!(render_rat(&v, 16), "0.3000000000000000");
}

#[test]
fn volume_exact_from_swap_preferred_form() {
    // 5000 units at 3 decimals is exactly 5.
    let v = estimate_from_swap(5000, 123, 3, 18);
    assert_eq!(render_rat(&v, 16), "5.0000000000000000");
}

#[test]
fn render_repeating_fraction_truncates() {
    let third = Rat::ratio(BigNat::from_u128(1), 3, 0);
    assert_eq!(
        render_rat(&third, 32),
        "0.33333333333333333333333333333333"
    );
}

#[test]
fn render_zero() {
    assert_eq!(render_rat(&Rat::zero(), 16), "0.0000000000000000");
}

#[test]
fn format_token_amount_tiers() {
    assert_eq!(format_token_amount(12345, 2), "123.4500");
    assert_eq!(format_token_amount(500, 6), "0.00050000");
    assert_eq!(format_token_amount(5, 6), "0.000005000000");
    assert_eq!(format_token_amount(0, 6), "0.000000000000");
}

#[test]
fn format_token_amount_largest_value() {
    assert_eq!(
        format_token_amount(u128::MAX, 0),
        "340282366920938463463374607431768211455.0000"
    );
}

#[test]
fn trade_record_buy() {
    let swap = SwapEvent {
        amount0_in: 5,
        amount1_in: 0,
        amount0_out: 0,
        amount1_out: 3,
        timestamp: 42,
    };
    let rec = make_trade_record(&swap, "DAI", "WETH", 2, 2).expect("directional trade");
    assert_eq!(rec.timestamp, 42);
    assert_eq!(rec.pair_label, "DAI-WETH");
    assert_eq!(rec.direction, SwapDirection::Buy);
    assert_eq!(rec.amount_in, "0.05000000");
    assert_eq!(rec.amount_out, "0.03000000");
}

#[test]
fn trade_record_ambiguous_is_excluded() {
    let swap = SwapEvent {
        amount0_in: 0,
        amount1_in: 0,
        amount0_out: 0,
        amount1_out: 0,
        timestamp: 42,
    };
    assert!(make_trade_record(&swap, "DAI", "WETH", 2, 2).is_none());
}

#[test]
fn candle_record_timestamp_in_milliseconds() {
    let series = build(vec![obs(100, 10)], 60);
    let rec = render_candle(&series.candles[0]);
    assert_eq!(rec.timestamp_ms, 60_000);
    assert_eq!(rec.open, "10.00000000000000000000000000000000");
    assert_eq!(rec.volume, "1.0000000000000000");
}

#[test]
fn largest_reserve_still_exact() {
    // A full uint112 reserve pair: price (r1/r0) = 1 exactly.
    let max112 = (1u128 << 112) - 1;
    let p = derive_from_reserves(max112, max112, 18, 18);
    assert_eq!(
        render_rat(&p, 32),
        "1.00000000000000000000000000000000"
    );
}
