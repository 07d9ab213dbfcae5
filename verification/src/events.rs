//! Normalizing raw pool events into uniform price observations.
//!
//! Raw event payloads are ABI-encoded words, 32 bytes each, big-endian.
//! A malformed payload never aborts a batch: each event either yields an
//! observation or a reported error, and the rest of the batch goes on.

use vstd::prelude::*;
use vstd::string::StringExecFns;
use crate::candles::ObsV;
use crate::candles::PriceObservation;
use crate::candles::all_obs_wf;
use crate::candles::obs_views;
use crate::digits::FACTOR_LIMIT;
use crate::price::SqrtPriceQ96;
use crate::price::derive_from_reserves;
use crate::price::derive_from_sqrt_price;
use crate::price::reserves_price_v;
use crate::price::sqrt_price_v;
use crate::volume::reserves_volume_v;
use crate::rat::Rat;
use crate::rat::RatV;
use crate::render::format_token_amount;
use crate::render::spec_render;
use crate::render::token_amount_precision;
use crate::volume::estimate_from_reserves;

verus! {

/// Why one event was skipped. The batch as a whole never fails on these.
#[derive(Clone, Copy, Debug, PartialEq, Eq, Structural)]
pub enum NormalizeError {
    /// The payload is shorter than its event layout requires.
    MalformedPayload,
    /// The block timestamp lookup failed upstream.
    MissingBlockData,
    /// A zero reserve leaves the price undefined; the observation is
    /// excluded rather than reported as a price of zero.
    DivisionUndefined,
    /// A field does not decode as a value of its declared width.
    DecodeFailure,
}

/// The direction of a trade, read off the swap amounts.
#[derive(Clone, Copy, Debug, PartialEq, Eq, Structural)]
pub enum SwapDirection {
    Buy,
    Sell,
    Ambiguous,
}

/// A decoded swap event: the four directional amounts and when it happened.
#[derive(Clone, Copy, Debug)]
pub struct SwapEvent {
    pub amount0_in: u128,
    pub amount1_in: u128,
    pub amount0_out: u128,
    pub amount1_out: u128,
    /// Epoch seconds.
    pub timestamp: u64,
}

/// Buy exactly when token0 goes in and token1 comes out; Sell exactly when
/// token1 goes in and token0 comes out; anything else — both directions
/// silent, or both active — is ambiguous and excluded from
/// direction-sensitive output.
pub open spec fn spec_classify(a0_in: nat, a1_in: nat, a0_out: nat, a1_out: nat) -> SwapDirection {
    let buy = a0_in > 0 && a1_out > 0;
    let sell = a1_in > 0 && a0_out > 0;
    if buy && !sell {
        SwapDirection::Buy
    } else if sell && !buy {
        SwapDirection::Sell
    } else {
        SwapDirection::Ambiguous
    }
}

pub fn classify_swap_direction(swap: &SwapEvent) -> (r: SwapDirection)
    ensures
        r == spec_classify(
            swap.amount0_in as nat,
            swap.amount1_in as nat,
            swap.amount0_out as nat,
            swap.amount1_out as nat,
        ),
{
    let buy = swap.amount0_in > 0 && swap.amount1_out > 0;
    let sell = swap.amount1_in > 0 && swap.amount0_out > 0;
    if buy && !sell {
        SwapDirection::Buy
    } else if sell && !buy {
        SwapDirection::Sell
    } else {
        SwapDirection::Ambiguous
    }
}

/// 256 to the power `k`: the count of byte strings of length `k`.
pub open spec fn pow256(k: nat) -> nat
    decreases k,
{
    if k == 0 {
        1
    } else {
        256 * pow256((k - 1) as nat)
    }
}

pub proof fn lemma_pow256_step(k: nat)
    requires
        k > 0,
    ensures
        pow256(k) == 256 * pow256((k - 1) as nat),
{
}

/// The powers of 256 the parsers need, as concrete numbers.
pub proof fn lemma_pow256_values()
    ensures
        pow256(4) == 0x100000000,
        pow256(14) == 0x10000000000000000000000000000,
        pow256(15) == 0x1000000000000000000000000000000,
        pow256(16) == 0x100000000000000000000000000000000,
{
    assert(pow256(0) == 1);
    assert(pow256(1) == 256);
    assert(pow256(2) == 0x10000);
    assert(pow256(3) == 0x1000000);
    assert(pow256(4) == 0x100000000);
    assert(pow256(5) == 0x10000000000);
    assert(pow256(6) == 0x1000000000000);
    assert(pow256(7) == 0x100000000000000);
    assert(pow256(8) == 0x10000000000000000);
    assert(pow256(9) == 0x1000000000000000000);
    assert(pow256(10) == 0x100000000000000000000);
    assert(pow256(11) == 0x10000000000000000000000);
    assert(pow256(12) == 0x1000000000000000000000000);
    assert(pow256(13) == 0x100000000000000000000000000);
    assert(pow256(14) == 0x10000000000000000000000000000);
    assert(pow256(15) == 0x1000000000000000000000000000000);
    assert(pow256(16) == 0x100000000000000000000000000000000);
}

pub proof fn lemma_pow256_increases(a: nat, b: nat)
    requires
        a <= b,
    ensures
        pow256(a) <= pow256(b),
    decreases b,
{
    if a < b {
        lemma_pow256_increases(a, (b - 1) as nat);
        if b > 0 {
            assert(pow256((b - 1) as nat) >= 1) by {
                lemma_pow256_pos((b - 1) as nat);
            };
        }
    }
}

pub proof fn lemma_pow256_pos(k: nat)
    ensures
        pow256(k) >= 1,
    decreases k,
{
    if k > 0 {
        lemma_pow256_pos((k - 1) as nat);
    }
}

/// The number a big-endian byte string denotes.
pub open spec fn be_val(s: Seq<u8>) -> nat
    decreases s.len(),
{
    if s.len() == 0 {
        0
    } else {
        256 * be_val(s.drop_last()) + s.last() as nat
    }
}

/// All of `s[start .. start + count]` is zero.
pub open spec fn zero_range(s: Seq<u8>, start: int, count: int) -> bool {
    forall|k: int| start <= k < start + count ==> s[k] == 0
}

/// Read `len` big-endian bytes at `start` as a machine integer.
fn read_be_u128(data: &Vec<u8>, start: usize, len: usize) -> (r: u128)
    requires
        start + len <= data@.len(),
        len <= 16,
    ensures
        r as nat == be_val(data@.subrange(start as int, (start + len) as int)),
        r < pow256(len as nat),
{
    let n = data.len();
    let mut acc: u128 = 0;
    let mut j: usize = 0;
    proof {
        assert(data@.subrange(start as int, start as int) =~= Seq::<u8>::empty());
    }
    while j < len
        invariant
            n == data@.len(),
            start + len <= n,
            len <= 16,
            j <= len,
            acc as nat == be_val(data@.subrange(start as int, (start + j) as int)),
            acc < pow256(j as nat),
        decreases len - j,
    {
        proof {
            lemma_pow256_values();
            lemma_pow256_increases(j as nat, 15);
            lemma_pow256_step((j + 1) as nat);
            let pre = data@.subrange(start as int, (start + j) as int);
            let ext = data@.subrange(start as int, (start + j + 1) as int);
            assert(ext =~= pre.push(data@[(start + j) as int]));
            assert(ext.drop_last() =~= pre);
        }
        acc = acc * 256 + (data[start + j] as u128);
        j = j + 1;
    }
    acc
}

/// Every byte in `data[start .. start + count]` is zero.
fn bytes_zero(data: &Vec<u8>, start: usize, count: usize) -> (r: bool)
    requires
        start + count <= data@.len(),
    ensures
        r == zero_range(data@, start as int, count as int),
{
    let n = data.len();
    let mut j: usize = 0;
    while j < count
        invariant
            n == data@.len(),
            start + count <= n,
            j <= count,
            forall|k: int| start <= k < start + j ==> data@[k] == 0,
        decreases count - j,
    {
        if data[start + j] != 0 {
            return false;
        }
        j = j + 1;
    }
    true
}

/// Reserve0 of a Sync payload: the second half of the first 32-byte word,
/// whose first 18 bytes must be zero for a `uint112`.
pub open spec fn sync_reserve0(s: Seq<u8>) -> nat {
    be_val(s.subrange(18, 32))
}

/// Reserve1 of a Sync payload: the second word.
pub open spec fn sync_reserve1(s: Seq<u8>) -> nat {
    be_val(s.subrange(50, 64))
}

pub open spec fn sync_payload_ok(s: Seq<u8>) -> bool {
    s.len() >= 64 && zero_range(s, 0, 18) && zero_range(s, 32, 18)
}

/// Decode a constant-product reserve-update payload: two `uint112`
/// reserves, each right-aligned in a 32-byte word.
pub fn parse_sync_payload(data: &Vec<u8>) -> (r: Result<(u128, u128), NormalizeError>)
    ensures
        data@.len() < 64 ==> r == Err::<(u128, u128), NormalizeError>(
            NormalizeError::MalformedPayload,
        ),
        data@.len() >= 64 && !(zero_range(data@, 0, 18) && zero_range(data@, 32, 18)) ==> r
            == Err::<(u128, u128), NormalizeError>(NormalizeError::DecodeFailure),
        sync_payload_ok(data@) ==> (r matches Ok(v) && v.0 as nat == sync_reserve0(data@) && v.1
            as nat == sync_reserve1(data@) && v.0 < FACTOR_LIMIT),
{
    if data.len() < 64 {
        return Err(NormalizeError::MalformedPayload);
    }
    if !bytes_zero(data, 0, 18) || !bytes_zero(data, 32, 18) {
        return Err(NormalizeError::DecodeFailure);
    }
    let reserve0 = read_be_u128(data, 18, 14);
    let reserve1 = read_be_u128(data, 50, 14);
    proof {
        lemma_pow256_values();
    }
    Ok((reserve0, reserve1))
}

/// The high 32 bits of a sqrt-price payload's `uint160` word.
pub open spec fn sqrt_hi(s: Seq<u8>) -> nat {
    be_val(s.subrange(12, 16))
}

/// The low 128 bits of a sqrt-price payload's `uint160` word.
pub open spec fn sqrt_lo(s: Seq<u8>) -> nat {
    be_val(s.subrange(16, 32))
}

pub open spec fn sqrt_payload_ok(s: Seq<u8>) -> bool {
    s.len() >= 32 && zero_range(s, 0, 12)
}

/// Decode a concentrated-liquidity price update: one `uint160`
/// square-root price, right-aligned in a 32-byte word.
pub fn parse_sqrt_price_payload(data: &Vec<u8>) -> (r: Result<SqrtPriceQ96, NormalizeError>)
    ensures
        data@.len() < 32 ==> r == Err::<SqrtPriceQ96, NormalizeError>(
            NormalizeError::MalformedPayload,
        ),
        data@.len() >= 32 && !zero_range(data@, 0, 12) ==> r == Err::<SqrtPriceQ96, NormalizeError>(
            NormalizeError::DecodeFailure,
        ),
        sqrt_payload_ok(data@) ==> (r matches Ok(sp) && sp.hi as nat == sqrt_hi(data@) && sp.lo
            as nat == sqrt_lo(data@)),
{
    if data.len() < 32 {
        return Err(NormalizeError::MalformedPayload);
    }
    if !bytes_zero(data, 0, 12) {
        return Err(NormalizeError::DecodeFailure);
    }
    let hi_wide = read_be_u128(data, 12, 4);
    let lo = read_be_u128(data, 16, 16);
    proof {
        lemma_pow256_values();
    }
    Ok(SqrtPriceQ96 { hi: hi_wide as u32, lo })
}

/// The `i`-th 32-byte word of a swap payload, as a 128-bit amount (its
/// first 16 bytes must be zero).
pub open spec fn swap_amount(s: Seq<u8>, i: int) -> nat {
    be_val(s.subrange(32 * i + 16, 32 * i + 32))
}

pub open spec fn swap_payload_ok(s: Seq<u8>) -> bool {
    s.len() >= 128 && zero_range(s, 0, 16) && zero_range(s, 32, 16) && zero_range(s, 64, 16)
        && zero_range(s, 96, 16)
}

/// Decode a swap payload: `amount0In`, `amount1In`, `amount0Out`,
/// `amount1Out`, one 32-byte word each.
pub fn parse_swap_payload(data: &Vec<u8>, timestamp: u64) -> (r: Result<SwapEvent, NormalizeError>)
    ensures
        data@.len() < 128 ==> r == Err::<SwapEvent, NormalizeError>(
            NormalizeError::MalformedPayload,
        ),
        data@.len() >= 128 && !(zero_range(data@, 0, 16) && zero_range(data@, 32, 16) && zero_range(
            data@,
            64,
            16,
        ) && zero_range(data@, 96, 16)) ==> r == Err::<SwapEvent, NormalizeError>(
            NormalizeError::DecodeFailure,
        ),
        swap_payload_ok(data@) ==> (r matches Ok(ev) && ev.amount0_in as nat == swap_amount(
            data@,
            0,
        ) && ev.amount1_in as nat == swap_amount(data@, 1) && ev.amount0_out as nat == swap_amount(
            data@,
            2,
        ) && ev.amount1_out as nat == swap_amount(data@, 3) && ev.timestamp == timestamp),
{
    if data.len() < 128 {
        return Err(NormalizeError::MalformedPayload);
    }
    if !bytes_zero(data, 0, 16) || !bytes_zero(data, 32, 16) || !bytes_zero(data, 64, 16)
        || !bytes_zero(data, 96, 16) {
        return Err(NormalizeError::DecodeFailure);
    }
    let amount0_in = read_be_u128(data, 16, 16);
    let amount1_in = read_be_u128(data, 48, 16);
    let amount0_out = read_be_u128(data, 80, 16);
    let amount1_out = read_be_u128(data, 112, 16);
    Ok(SwapEvent { amount0_in, amount1_in, amount0_out, amount1_out, timestamp })
}

/// Which price representation a pool uses.
#[derive(Clone, Copy, Debug, PartialEq, Eq, Structural)]
pub enum PoolKind {
    ConstantProduct,
    ConcentratedLiquidity,
}

/// What the feed knows about the pool a raw event came from.
#[derive(Clone, Copy, Debug)]
pub struct PoolContext {
    pub kind: PoolKind,
    pub decimals0: u8,
    pub decimals1: u8,
}

/// One raw record from the feed: the event payload and the timestamp of
/// its block, if the lookup succeeded.
pub struct RawEvent {
    pub payload: Vec<u8>,
    /// Epoch seconds; `None` when the block data could not be fetched.
    pub block_timestamp: Option<u64>,
}

/// What normalizing one raw event must yield: either the observation's
/// mathematical content or the exact error that excludes the event.
pub open spec fn spec_normalize(ev: RawEvent, ctx: PoolContext) -> Result<ObsV, NormalizeError> {
    match ev.block_timestamp {
        Option::None => Err(NormalizeError::MissingBlockData),
        Option::Some(t) => {
            let s = ev.payload@;
            match ctx.kind {
                PoolKind::ConstantProduct => {
                    if s.len() < 64 {
                        Err(NormalizeError::MalformedPayload)
                    } else if !(zero_range(s, 0, 18) && zero_range(s, 32, 18)) {
                        Err(NormalizeError::DecodeFailure)
                    } else if sync_reserve0(s) == 0 || sync_reserve1(s) == 0 {
                        Err(NormalizeError::DivisionUndefined)
                    } else {
                        Ok(
                            ObsV {
                                ts: t as nat,
                                price: reserves_price_v(
                                    sync_reserve0(s),
                                    sync_reserve1(s),
                                    ctx.decimals0 as int,
                                    ctx.decimals1 as int,
                                ),
                                vol: reserves_volume_v(
                                    sync_reserve0(s),
                                    sync_reserve1(s),
                                    ctx.decimals0 as nat,
                                    ctx.decimals1 as nat,
                                ),
                            },
                        )
                    }
                },
                PoolKind::ConcentratedLiquidity => {
                    if s.len() < 32 {
                        Err(NormalizeError::MalformedPayload)
                    } else if !zero_range(s, 0, 12) {
                        Err(NormalizeError::DecodeFailure)
                    } else {
                        let sq = sqrt_hi(s) * 0x100000000000000000000000000000000 + sqrt_lo(s);
                        Ok(
                            ObsV {
                                ts: t as nat,
                                price: sqrt_price_v(sq, ctx.decimals0 as int, ctx.decimals1 as int),
                                vol: RatV { n: 0, d: 1, e: 0 },
                            },
                        )
                    }
                },
            }
        },
    }
}

/// Normalize one raw event into a price observation, or say exactly why it
/// is excluded. Never panics and never aborts a batch: every outcome is a
/// value.
pub fn normalize(ev: &RawEvent, ctx: &PoolContext) -> (r: Result<
    PriceObservation,
    NormalizeError,
>)
    ensures
        (r matches Ok(o) ==> spec_normalize(*ev, *ctx) == Ok::<ObsV, NormalizeError>(o@)
            && o.wf()),
        (r matches Err(e) ==> spec_normalize(*ev, *ctx) == Err::<ObsV, NormalizeError>(e)),
{
    let timestamp: u64 = match ev.block_timestamp {
        Option::None => {
            return Err(NormalizeError::MissingBlockData);
        },
        Option::Some(t) => t,
    };
    match ctx.kind {
        PoolKind::ConstantProduct => {
            let (reserve0, reserve1) = match parse_sync_payload(&ev.payload) {
                Ok(v) => v,
                Err(e) => {
                    return Err(e);
                },
            };
            if reserve0 == 0 || reserve1 == 0 {
                return Err(NormalizeError::DivisionUndefined);
            }
            let price = derive_from_reserves(reserve0, reserve1, ctx.decimals0, ctx.decimals1);
            let volume = estimate_from_reserves(reserve0, reserve1, ctx.decimals0, ctx.decimals1);
            Ok(PriceObservation { timestamp, price, volume })
        },
        PoolKind::ConcentratedLiquidity => {
            let sqrt_price = match parse_sqrt_price_payload(&ev.payload) {
                Ok(v) => v,
                Err(e) => {
                    return Err(e);
                },
            };
            let price = derive_from_sqrt_price(&sqrt_price, ctx.decimals0, ctx.decimals1);
            let volume = Rat::zero();
            Ok(PriceObservation { timestamp, price, volume })
        },
    }
}

/// The observations of the events that normalize, in order.
pub open spec fn spec_collect_ok(evs: Seq<RawEvent>, ctx: PoolContext) -> Seq<ObsV>
    decreases evs.len(),
{
    if evs.len() == 0 {
        Seq::<ObsV>::empty()
    } else {
        let rest = spec_collect_ok(evs.drop_last(), ctx);
        match spec_normalize(evs.last(), ctx) {
            Ok(o) => rest.push(o),
            Err(_) => rest,
        }
    }
}

/// The errors of the events that do not normalize, in order.
pub open spec fn spec_collect_errs(evs: Seq<RawEvent>, ctx: PoolContext) -> Seq<NormalizeError>
    decreases evs.len(),
{
    if evs.len() == 0 {
        Seq::<NormalizeError>::empty()
    } else {
        let rest = spec_collect_errs(evs.drop_last(), ctx);
        match spec_normalize(evs.last(), ctx) {
            Ok(_) => rest,
            Err(e) => rest.push(e),
        }
    }
}

/// Normalize a whole batch: failed events are skipped and reported, and
/// every event that can normalize still does.
pub fn collect_observations(events: &Vec<RawEvent>, ctx: &PoolContext) -> (r: (
    Vec<PriceObservation>,
    Vec<NormalizeError>,
))
    ensures
        all_obs_wf(r.0@),
        obs_views(r.0@) == spec_collect_ok(events@, *ctx),
        r.1@ == spec_collect_errs(events@, *ctx),
{
    let mut out: Vec<PriceObservation> = Vec::new();
    let mut errs: Vec<NormalizeError> = Vec::new();
    let mut i: usize = 0;
    proof {
        assert(events@.take(0) =~= Seq::<RawEvent>::empty());
        assert(obs_views(out@) =~= Seq::<ObsV>::empty());
    }
    while i < events.len()
        invariant
            i <= events@.len(),
            all_obs_wf(out@),
            obs_views(out@) == spec_collect_ok(events@.take(i as int), *ctx),
            errs@ == spec_collect_errs(events@.take(i as int), *ctx),
        decreases events@.len() - i,
    {
        proof {
            assert(events@.take(i as int + 1).drop_last() =~= events@.take(i as int));
            assert(events@.take(i as int + 1).last() == events@[i as int]);
        }
        let ghost pre = obs_views(out@);
        match normalize(&events[i], ctx) {
            Ok(o) => {
                proof {
                    assert(obs_views(out@.push(o)) =~= obs_views(out@).push(o@));
                }
                out.push(o);
            },
            Err(e) => {
                errs.push(e);
            },
        }
        i = i + 1;
    }
    proof {
        assert(events@.take(events@.len() as int) =~= events@);
    }
    (out, errs)
}

/// The enriched per-trade record of the live path.
pub struct TradeRecord {
    /// Epoch seconds.
    pub timestamp: u64,
    /// `"<symbol0>-<symbol1>"`.
    pub pair_label: String,
    pub direction: SwapDirection,
    /// Normalized input amount, formatted.
    pub amount_in: String,
    /// Normalized output amount, formatted.
    pub amount_out: String,
}

/// Build the enriched record for one trade, or nothing when its direction
/// is ambiguous (such events are excluded, never an error).
pub fn make_trade_record(
    swap: &SwapEvent,
    symbol0: &str,
    symbol1: &str,
    decimals0: u8,
    decimals1: u8,
) -> (r: Option<TradeRecord>)
    ensures
        ({
            let dir = spec_classify(
                swap.amount0_in as nat,
                swap.amount1_in as nat,
                swap.amount0_out as nat,
                swap.amount1_out as nat,
            );
            &&& (r is None <==> dir == SwapDirection::Ambiguous)
            &&& (r matches Some(t) ==> {
                &&& t.direction == dir
                &&& t.timestamp == swap.timestamp
                &&& t.pair_label@ == symbol0@ + "-"@ + symbol1@
                &&& (dir == SwapDirection::Buy ==> t.amount_in@ == spec_render(
                    RatV { n: swap.amount0_in as nat, d: 1, e: -(decimals0 as int) },
                    token_amount_precision(swap.amount0_in as nat, decimals0 as nat),
                ) && t.amount_out@ == spec_render(
                    RatV { n: swap.amount1_out as nat, d: 1, e: -(decimals1 as int) },
                    token_amount_precision(swap.amount1_out as nat, decimals1 as nat),
                ))
                &&& (dir == SwapDirection::Sell ==> t.amount_in@ == spec_render(
                    RatV { n: swap.amount1_in as nat, d: 1, e: -(decimals1 as int) },
                    token_amount_precision(swap.amount1_in as nat, decimals1 as nat),
                ) && t.amount_out@ == spec_render(
                    RatV { n: swap.amount0_out as nat, d: 1, e: -(decimals0 as int) },
                    token_amount_precision(swap.amount0_out as nat, decimals0 as nat),
                ))
            })
        }),
{
    let direction = classify_swap_direction(swap);
    let pair_label = String::from_str(symbol0).concat("-").concat(symbol1);
    match direction {
        SwapDirection::Buy => Some(
            TradeRecord {
                timestamp: swap.timestamp,
                pair_label,
                direction,
                amount_in: format_token_amount(swap.amount0_in, decimals0),
                amount_out: format_token_amount(swap.amount1_out, decimals1),
            },
        ),
        SwapDirection::Sell => Some(
            TradeRecord {
                timestamp: swap.timestamp,
                pair_label,
                direction,
                amount_in: format_token_amount(swap.amount1_in, decimals1),
                amount_out: format_token_amount(swap.amount0_out, decimals0),
            },
        ),
        SwapDirection::Ambiguous => None,
    }
}

} // verus!
