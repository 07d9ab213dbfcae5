//! Bucketing normalized price observations into fixed-interval OHLCV
//! candles.
//!
//! Buckets are aligned to absolute epoch time. Observations are first put
//! into a canonical order — by timestamp, with a content-based tie-break —
//! so the emitted candle sequence is the same whatever order the
//! observations arrived in.

use vstd::prelude::*;
use vstd::multiset::Multiset;
use vstd::relations::sorted_by;
use vstd::relations::total_ordering;
use vstd::seq_lib::lemma_sorted_unique;
use crate::rat::Rat;
use crate::rat::RatV;
use crate::rat::rat_le_v;
use crate::rat::rat_v_wf;
use crate::rat::lemma_rat_le_total;
use crate::rat::rat_add_v;
use crate::rat::lemma_rat_le_trans;

verus! {

/// A normalized price observation: one point of the uniform record that
/// every kind of raw pool event is reduced to.
pub struct PriceObservation {
    /// Epoch seconds.
    pub timestamp: u64,
    /// Exchange rate of token0 in token1 units.
    pub price: Rat,
    /// Exact or heuristic volume proxy; always a finite decimal.
    pub volume: Rat,
}

/// Mathematical content of an observation.
pub ghost struct ObsV {
    pub ts: nat,
    pub price: RatV,
    pub vol: RatV,
}

impl View for PriceObservation {
    type V = ObsV;

    open spec fn view(&self) -> ObsV {
        ObsV { ts: self.timestamp as nat, price: self.price@, vol: self.volume@ }
    }
}

impl PriceObservation {
    pub open spec fn wf(&self) -> bool {
        &&& self.price.wf()
        &&& self.volume.wf()
        &&& self.volume.den == 1
    }
}

/// One OHLCV candle for a fixed time bucket.
pub struct Candle {
    /// Aligned epoch-second start of the bucket.
    pub bucket_start: u64,
    pub open: Rat,
    pub high: Rat,
    pub low: Rat,
    pub close: Rat,
    pub volume: Rat,
}

/// Mathematical content of a candle.
pub ghost struct CandleV {
    pub bucket: nat,
    pub open: RatV,
    pub high: RatV,
    pub low: RatV,
    pub close: RatV,
    pub vol: RatV,
}

impl View for Candle {
    type V = CandleV;

    open spec fn view(&self) -> CandleV {
        CandleV {
            bucket: self.bucket_start as nat,
            open: self.open@,
            high: self.high@,
            low: self.low@,
            close: self.close@,
            vol: self.volume@,
        }
    }
}

impl Candle {
    pub open spec fn wf(&self) -> bool {
        &&& self.open.wf()
        &&& self.high.wf()
        &&& self.low.wf()
        &&& self.close.wf()
        &&& self.volume.wf()
        &&& self.volume.den == 1
    }
}

/// The aligned start of the bucket holding time `ts`.
pub open spec fn spec_bucket_start(ts: nat, interval: nat) -> nat {
    (ts / interval) * interval
}

/// Bucket alignment: every timestamp falls in exactly one bucket, whose
/// start is a multiple of the interval and lies at most one interval back.
pub proof fn lemma_bucket_alignment(ts: nat, interval: nat)
    requires
        interval > 0,
    ensures
        spec_bucket_start(ts, interval) <= ts,
        ts < spec_bucket_start(ts, interval) + interval,
        spec_bucket_start(ts, interval) % interval == 0,
{
    vstd::arithmetic::div_mod::lemma_fundamental_div_mod(ts as int, interval as int);
    vstd::arithmetic::div_mod::lemma_mod_multiples_basic(
        (ts / interval) as int,
        interval as int,
    );
    assert((interval as int) * ((ts as int) / (interval as int)) == ((ts as int) / (interval
        as int)) * (interval as int)) by (nonlinear_arith);
}

/// Buckets respect time order.
pub proof fn lemma_bucket_monotone(t1: nat, t2: nat, interval: nat)
    requires
        interval > 0,
        t1 <= t2,
    ensures
        spec_bucket_start(t1, interval) <= spec_bucket_start(t2, interval),
{
    vstd::arithmetic::div_mod::lemma_div_is_ordered(t1 as int, t2 as int, interval as int);
    assert((t1 / interval) * interval <= (t2 / interval) * interval) by (nonlinear_arith)
        requires
            t1 / interval <= t2 / interval,
    ;
}

/// `spec_bucket_start`, executably, with its alignment guarantees.
pub fn bucket_start(ts: u64, interval: u64) -> (r: u64)
    requires
        interval > 0,
    ensures
        r as nat == spec_bucket_start(ts as nat, interval as nat),
        r <= ts < r as nat + interval as nat,
        r as nat % interval as nat == 0,
{
    proof {
        lemma_bucket_alignment(ts as nat, interval as nat);
    }
    (ts / interval) * interval
}

/// Representation order on rationals, used only as a deterministic
/// tie-break when sorting: exponent, then denominator, then numerator.
pub open spec fn rat_v_repr_lt(a: RatV, b: RatV) -> bool {
    ||| a.e < b.e
    ||| (a.e == b.e && a.d < b.d)
    ||| (a.e == b.e && a.d == b.d && a.n < b.n)
}

/// The canonical processing order on observations: by timestamp, ties
/// broken by the content of the record so that any arrival order of the
/// same observations sorts to the same sequence.
pub open spec fn obs_le_v(a: ObsV, b: ObsV) -> bool {
    ||| a.ts < b.ts
    ||| (a.ts == b.ts && rat_v_repr_lt(a.price, b.price))
    ||| (a.ts == b.ts && a.price == b.price && rat_v_repr_lt(a.vol, b.vol))
    ||| (a.ts == b.ts && a.price == b.price && a.vol == b.vol)
}

/// The observation order as a first-class relation.
pub open spec fn obs_leq() -> spec_fn(ObsV, ObsV) -> bool {
    |a: ObsV, b: ObsV| obs_le_v(a, b)
}

/// The canonical processing order is a total order, so a multiset of
/// observations has exactly one sorted arrangement.
pub proof fn lemma_obs_leq_total_ordering()
    ensures
        total_ordering(obs_leq()),
{
    let leq = obs_leq();
    assert forall|a: ObsV, b: ObsV| #[trigger] leq(a, b) && leq(b, a) implies a == b by {
        assert(a.ts == b.ts && a.price == b.price && a.vol == b.vol);
    }
    assert forall|a: ObsV, b: ObsV, c: ObsV|
        #[trigger] leq(a, b) && #[trigger] leq(b, c) implies leq(a, c) by {
    }
}

/// The canonical order is transitive.
pub proof fn lemma_obs_le_trans(a: ObsV, b: ObsV, c: ObsV)
    requires
        obs_le_v(a, b),
        obs_le_v(b, c),
    ensures
        obs_le_v(a, c),
{
}

/// The canonical order is total.
pub proof fn lemma_obs_le_total(a: ObsV, b: ObsV)
    ensures
        obs_le_v(a, b) || obs_le_v(b, a),
{
}

/// Exec comparison deciding `obs_le_v` on the views.
fn obs_le(a: &PriceObservation, b: &PriceObservation) -> (r: bool)
    requires
        a.wf(),
        b.wf(),
    ensures
        r == obs_le_v(a@, b@),
{
    if a.timestamp != b.timestamp {
        return a.timestamp < b.timestamp;
    }
    if a.price.exp != b.price.exp {
        return a.price.exp < b.price.exp;
    }
    if a.price.den != b.price.den {
        return a.price.den < b.price.den;
    }
    let ple = a.price.num.le(&b.price.num);
    let pge = b.price.num.le(&a.price.num);
    if !(ple && pge) {
        return ple;
    }
    if a.volume.exp != b.volume.exp {
        return a.volume.exp < b.volume.exp;
    }
    if a.volume.den != b.volume.den {
        return a.volume.den < b.volume.den;
    }
    a.volume.num.le(&b.volume.num)
}

/// The views of a sequence of observations.
pub open spec fn obs_views(s: Seq<PriceObservation>) -> Seq<ObsV> {
    s.map_values(|o: PriceObservation| o@)
}

/// The views of a sequence of candles.
pub open spec fn candle_views(s: Seq<Candle>) -> Seq<CandleV> {
    s.map_values(|c: Candle| c@)
}

pub open spec fn all_obs_wf(s: Seq<PriceObservation>) -> bool {
    forall|i: int| 0 <= i < s.len() ==> (#[trigger] s[i]).wf()
}

pub open spec fn all_candles_wf(s: Seq<Candle>) -> bool {
    forall|i: int| 0 <= i < s.len() ==> (#[trigger] s[i]).wf()
}

/// Sort observations into the canonical processing order: selection of the
/// least remaining element, so the result is sorted and holds exactly the
/// observations given.
fn sort_observations(input: Vec<PriceObservation>) -> (r: Vec<PriceObservation>)
    requires
        all_obs_wf(input@),
    ensures
        all_obs_wf(r@),
        sorted_by(obs_views(r@), obs_leq()),
        obs_views(r@).to_multiset() == obs_views(input@).to_multiset(),
{
    broadcast use vstd::seq_lib::group_to_multiset_ensures;

    let mut src = input;
    let mut out: Vec<PriceObservation> = Vec::new();
    proof {
        assert(obs_views(out@) =~= Seq::<ObsV>::empty());
        assert(obs_views(out@).to_multiset().add(obs_views(src@).to_multiset()) =~= obs_views(
            src@).to_multiset());
    }
    while src.len() > 0
        invariant
            all_obs_wf(src@),
            all_obs_wf(out@),
            sorted_by(obs_views(out@), obs_leq()),
            obs_views(out@).to_multiset().add(obs_views(src@).to_multiset()) == obs_views(
                input@).to_multiset(),
            forall|i: int, j: int|
                0 <= i < out@.len() && 0 <= j < src@.len() ==> obs_le_v(
                    #[trigger] out@[i]@,
                    #[trigger] src@[j]@,
                ),
        decreases src@.len(),
    {
        // Find the least remaining observation.
        let mut min_idx: usize = 0;
        let mut k: usize = 1;
        while k < src.len()
            invariant
                all_obs_wf(src@),
                src@.len() > 0,
                min_idx < k <= src@.len(),
                forall|t: int| 0 <= t < k ==> obs_le_v(src@[min_idx as int]@, (#[trigger] src@[t])@),
            decreases src@.len() - k,
        {
            if obs_le(&src[k], &src[min_idx]) {
                proof {
                    assert forall|t: int| 0 <= t < k + 1 implies obs_le_v(
                        src@[k as int]@,
                        (#[trigger] src@[t])@,
                    ) by {
                        if t < k {
                            assert(obs_le_v(src@[min_idx as int]@, src@[t]@));
                            lemma_obs_le_trans(src@[k as int]@, src@[min_idx as int]@, src@[t]@);
                        }
                    }
                }
                min_idx = k;
            } else {
                proof {
                    lemma_obs_le_total(src@[min_idx as int]@, src@[k as int]@);
                }
            }
            k = k + 1;
        }
        let ghost old_src = src@;
        let ghost old_out = out@;
        let picked = src.remove(min_idx);
        out.push(picked);
        proof {
            broadcast use vstd::multiset::group_multiset_axioms;

            let vs = obs_views(old_src);
            let vo = obs_views(old_out);
            vs.to_multiset_ensures();
            vo.to_multiset_ensures();
            assert(vs[min_idx as int] == picked@);
            assert(obs_views(src@) =~= vs.remove(min_idx as int));
            assert(obs_views(src@).to_multiset() == vs.to_multiset().remove(picked@));
            assert(obs_views(out@) =~= vo.push(picked@));
            assert(obs_views(out@).to_multiset() == vo.to_multiset().insert(picked@));
            assert(vs.contains(picked@));
            assert(vs.to_multiset().count(picked@) > 0);
            assert(vo.to_multiset().insert(picked@).add(vs.to_multiset().remove(picked@))
                =~= vo.to_multiset().add(vs.to_multiset()));
            // The freshly appended element follows everything already placed
            // and precedes everything still unplaced.
            assert forall|i: int, j: int|
                0 <= i < out@.len() && 0 <= j < src@.len() implies obs_le_v(
                #[trigger] out@[i]@,
                #[trigger] src@[j]@,
            ) by {
                if i < old_out.len() {
                    if j < min_idx {
                        assert(src@[j] == old_src[j]);
                    } else {
                        assert(src@[j] == old_src[j + 1]);
                    }
                } else {
                    assert(out@[i] == picked);
                    if j < min_idx {
                        assert(src@[j] == old_src[j]);
                    } else {
                        assert(src@[j] == old_src[j + 1]);
                    }
                }
            }
            assert forall|i: int, j: int| 0 <= i < j < obs_views(out@).len() implies #[trigger]
                obs_leq()(obs_views(out@)[i], obs_views(out@)[j]) by {
                if j < old_out.len() {
                    assert(obs_leq()(obs_views(old_out)[i], obs_views(old_out)[j]));
                } else {
                    assert(out@[j] == picked);
                    assert(obs_le_v(old_out[i]@, old_src[min_idx as int]@));
                }
            }
        }
    }
    proof {
        assert(obs_views(src@).to_multiset() =~= Multiset::<ObsV>::empty());
        assert(obs_views(out@).to_multiset().add(Multiset::<ObsV>::empty()) =~= obs_views(
            out@).to_multiset());
    }
    out
}

/// The larger of two values; ties keep the second.
pub open spec fn rat_max_v(a: RatV, b: RatV) -> RatV {
    if rat_le_v(a, b) {
        b
    } else {
        a
    }
}

/// The smaller of two values; ties keep the first.
pub open spec fn rat_min_v(a: RatV, b: RatV) -> RatV {
    if rat_le_v(a, b) {
        a
    } else {
        b
    }
}

/// A fresh candle holding a single observation.
pub open spec fn candle_of(o: ObsV, interval: nat) -> CandleV {
    CandleV {
        bucket: spec_bucket_start(o.ts, interval),
        open: o.price,
        high: o.price,
        low: o.price,
        close: o.price,
        vol: o.vol,
    }
}

/// Folding one more observation of the same bucket into a candle: the open
/// stands, the close moves, high and low widen, the volume accumulates.
pub open spec fn merge_obs(c: CandleV, o: ObsV) -> CandleV {
    CandleV {
        bucket: c.bucket,
        open: c.open,
        high: rat_max_v(c.high, o.price),
        low: rat_min_v(c.low, o.price),
        close: o.price,
        vol: rat_add_v(c.vol, o.vol),
    }
}

/// One step of the aggregation fold over observations in canonical order.
pub open spec fn agg_step(cs: Seq<CandleV>, o: ObsV, interval: nat) -> Seq<CandleV> {
    if cs.len() > 0 && cs.last().bucket == spec_bucket_start(o.ts, interval) {
        cs.update(cs.len() - 1, merge_obs(cs.last(), o))
    } else {
        cs.push(candle_of(o, interval))
    }
}

/// The candles produced by folding a sequence of observations in order.
pub open spec fn spec_aggregate(s: Seq<ObsV>, interval: nat) -> Seq<CandleV>
    decreases s.len(),
{
    if s.len() == 0 {
        Seq::<CandleV>::empty()
    } else {
        agg_step(spec_aggregate(s.drop_last(), interval), s.last(), interval)
    }
}

/// The candles produced from a set of observations in any arrival order:
/// sort to the canonical order, then fold.
pub open spec fn spec_build(s: Seq<ObsV>, interval: nat) -> Seq<CandleV> {
    spec_aggregate(s.sort_by(obs_leq()), interval)
}

/// Determinism under permutation: two batches holding the same
/// observations, in whatever order, build the same candle sequence.
pub proof fn lemma_build_permutation(s1: Seq<ObsV>, s2: Seq<ObsV>, interval: nat)
    requires
        s1.to_multiset() == s2.to_multiset(),
    ensures
        spec_build(s1, interval) == spec_build(s2, interval),
{
    lemma_obs_leq_total_ordering();
    s1.lemma_sort_by_ensures(obs_leq());
    s2.lemma_sort_by_ensures(obs_leq());
    lemma_sorted_unique(s1.sort_by(obs_leq()), s2.sort_by(obs_leq()), obs_leq());
}

pub open spec fn obs_v_wf(o: ObsV) -> bool {
    rat_v_wf(o.price) && rat_v_wf(o.vol)
}

pub open spec fn all_obs_v_wf(s: Seq<ObsV>) -> bool {
    forall|i: int| 0 <= i < s.len() ==> obs_v_wf(#[trigger] s[i])
}

pub open spec fn candle_v_wf(c: CandleV) -> bool {
    &&& rat_v_wf(c.open)
    &&& rat_v_wf(c.high)
    &&& rat_v_wf(c.low)
    &&& rat_v_wf(c.close)
}

/// The open-high-low-close invariant of a single candle:
/// `low <= min(open, close)` and `high >= max(open, close)`.
pub open spec fn candle_ohlc_ok(c: CandleV) -> bool {
    &&& rat_le_v(c.low, c.open)
    &&& rat_le_v(c.low, c.close)
    &&& rat_le_v(c.open, c.high)
    &&& rat_le_v(c.close, c.high)
}

/// Every emitted candle satisfies the OHLC invariant, whatever the
/// observation order.
pub proof fn lemma_aggregate_ohlc(s: Seq<ObsV>, interval: nat)
    requires
        all_obs_v_wf(s),
    ensures
        forall|k: int|
            0 <= k < spec_aggregate(s, interval).len() ==> candle_v_wf(
                #[trigger] spec_aggregate(s, interval)[k],
            ) && candle_ohlc_ok(spec_aggregate(s, interval)[k]),
    decreases s.len(),
{
    if s.len() > 0 {
        let prev = spec_aggregate(s.drop_last(), interval);
        let o = s.last();
        let cur = spec_aggregate(s, interval);
        assert(all_obs_v_wf(s.drop_last()));
        lemma_aggregate_ohlc(s.drop_last(), interval);
        assert(obs_v_wf(o));
        if prev.len() > 0 && prev.last().bucket == spec_bucket_start(o.ts, interval) {
            let c = prev.last();
            let m = merge_obs(c, o);
            let p = o.price;
            assert(candle_v_wf(c) && candle_ohlc_ok(c));
            // high widens: both the old high and the new close fit under it.
            if rat_le_v(c.high, p) {
                assert(m.high == p);
                lemma_rat_le_trans(c.open, c.high, p);
            } else {
                lemma_rat_le_total(c.high, p);
                assert(rat_le_v(p, c.high));
                assert(m.high == c.high);
            }
            // low widens: it stays under the old open and the new close.
            if rat_le_v(c.low, p) {
                assert(m.low == c.low);
            } else {
                lemma_rat_le_total(c.low, p);
                assert(rat_le_v(p, c.low));
                assert(m.low == p);
                lemma_rat_le_trans(p, c.low, c.open);
            }
            assert(candle_v_wf(m) && candle_ohlc_ok(m));
            assert forall|k: int| 0 <= k < cur.len() implies candle_v_wf(#[trigger] cur[k])
                && candle_ohlc_ok(cur[k]) by {
                if k < cur.len() - 1 {
                    assert(cur[k] == prev[k]);
                } else {
                    assert(cur[k] == m);
                }
            }
        } else {
            assert forall|k: int| 0 <= k < cur.len() implies candle_v_wf(#[trigger] cur[k])
                && candle_ohlc_ok(cur[k]) by {
                if k < cur.len() - 1 {
                    assert(cur[k] == prev[k]);
                } else {
                    assert(cur[k] == candle_of(o, interval));
                }
            }
        }
    }
}

/// For observations fed in time order, the emitted buckets are aligned,
/// strictly increasing (so no bucket repeats and the series is sorted), and
/// every one of them is the bucket of at least one observation: no empty
/// bucket is ever materialized.
pub proof fn lemma_aggregate_buckets(s: Seq<ObsV>, interval: nat)
    requires
        interval > 0,
        forall|i: int, j: int| 0 <= i < j < s.len() ==> (#[trigger] s[i]).ts <= (#[trigger] s[j]).ts,
    ensures
        forall|k: int, k2: int|
            0 <= k < k2 < spec_aggregate(s, interval).len() ==> (#[trigger] spec_aggregate(
                s,
                interval,
            )[k]).bucket < (#[trigger] spec_aggregate(s, interval)[k2]).bucket,
        forall|k: int|
            0 <= k < spec_aggregate(s, interval).len() ==> exists|j: int|
                0 <= j < s.len() && (#[trigger] spec_aggregate(s, interval)[k]).bucket
                    == spec_bucket_start(s[j].ts, interval),
        forall|k: int|
            0 <= k < spec_aggregate(s, interval).len() ==> (#[trigger] spec_aggregate(
                s,
                interval,
            )[k]).bucket % interval == 0,
        s.len() > 0 ==> spec_aggregate(s, interval).len() > 0 && spec_aggregate(
            s,
            interval,
        ).last().bucket == spec_bucket_start(s.last().ts, interval),
    decreases s.len(),
{
    if s.len() > 0 {
        let prev = spec_aggregate(s.drop_last(), interval);
        let o = s.last();
        let cur = spec_aggregate(s, interval);
        lemma_aggregate_buckets(s.drop_last(), interval);
        lemma_bucket_alignment(o.ts, interval);
        let b = spec_bucket_start(o.ts, interval);
        if prev.len() > 0 && prev.last().bucket == b {
            assert(cur =~= prev.update(prev.len() - 1, merge_obs(prev.last(), o)));
            assert forall|k: int|
                0 <= k < cur.len() implies exists|j: int|
                0 <= j < s.len() && (#[trigger] cur[k]).bucket == spec_bucket_start(
                    s[j].ts,
                    interval,
                ) by {
                if k < cur.len() - 1 {
                    assert(cur[k] == prev[k]);
                    let j0 = choose|j: int|
                        0 <= j < s.drop_last().len() && prev[k].bucket == spec_bucket_start(
                            s.drop_last()[j].ts,
                            interval,
                        );
                    assert(s.drop_last()[j0] == s[j0]);
                    assert(cur[k].bucket == spec_bucket_start(s[j0].ts, interval));
                } else {
                    assert(cur[k].bucket == b && b == spec_bucket_start(s[s.len() - 1].ts,
                        interval));
                }
            }
        } else {
            assert(cur =~= prev.push(candle_of(o, interval)));
            if prev.len() > 0 {
                // The previous last bucket belongs to an earlier, hence not
                // later, timestamp; a differing bucket must be a smaller one.
                assert(prev.last().bucket == spec_bucket_start(s.drop_last().last().ts, interval));
                assert(s.drop_last().last() == s[s.len() - 2]);
                assert(s[s.len() - 2].ts <= o.ts);
                lemma_bucket_monotone(s[s.len() - 2].ts, o.ts, interval);
                assert(prev.last().bucket < b);
            }
            assert forall|k: int, k2: int| 0 <= k < k2 < cur.len() implies (#[trigger] cur[k]).bucket
                < (#[trigger] cur[k2]).bucket by {
                if k2 < cur.len() - 1 {
                    assert(cur[k] == prev[k] && cur[k2] == prev[k2]);
                } else {
                    assert(cur[k] == prev[k]);
                    if k < cur.len() - 1 {
                        assert(prev[k].bucket <= prev.last().bucket) by {
                            if k < prev.len() - 1 {
                                assert(prev[k].bucket < prev[prev.len() - 1].bucket);
                            }
                        };
                    }
                }
            }
            assert forall|k: int|
                0 <= k < cur.len() implies exists|j: int|
                0 <= j < s.len() && (#[trigger] cur[k]).bucket == spec_bucket_start(
                    s[j].ts,
                    interval,
                ) by {
                if k < cur.len() - 1 {
                    assert(cur[k] == prev[k]);
                    let j0 = choose|j: int|
                        0 <= j < s.drop_last().len() && prev[k].bucket == spec_bucket_start(
                            s.drop_last()[j].ts,
                            interval,
                        );
                    assert(s.drop_last()[j0] == s[j0]);
                    assert(cur[k].bucket == spec_bucket_start(s[j0].ts, interval));
                } else {
                    assert(cur[k].bucket == b && b == spec_bucket_start(s[s.len() - 1].ts,
                        interval));
                }
            }
        }
    }
}

/// Fold observations, already in canonical order, into candles.
fn aggregate_in_order(observations: &Vec<PriceObservation>, interval_seconds: u64) -> (r: Vec<
    Candle>)
    requires
        interval_seconds > 0,
        all_obs_wf(observations@),
    ensures
        all_candles_wf(r@),
        candle_views(r@) == spec_aggregate(obs_views(observations@), interval_seconds as nat),
{
    let ghost views = obs_views(observations@);
    let mut out: Vec<Candle> = Vec::new();
    let mut i: usize = 0;
    proof {
        assert(candle_views(out@) =~= Seq::<CandleV>::empty());
        assert(views.take(0) =~= Seq::<ObsV>::empty());
    }
    while i < observations.len()
        invariant
            interval_seconds > 0,
            all_obs_wf(observations@),
            views == obs_views(observations@),
            i <= observations@.len(),
            all_candles_wf(out@),
            candle_views(out@) == spec_aggregate(views.take(i as int), interval_seconds as nat),
        decreases observations@.len() - i,
    {
        let ghost pre = candle_views(out@);
        proof {
            assert(views.take(i as int + 1).drop_last() =~= views.take(i as int));
            assert(views.take(i as int + 1).last() == views[i as int]);
            assert(views[i as int] == observations@[i as int]@);
        }
        let b = bucket_start(observations[i].timestamp, interval_seconds);
        let same_bucket = out.len() > 0 && out[out.len() - 1].bucket_start == b;
        if same_bucket {
            let ghost old_out = out@;
            let last = out.pop().unwrap();
            let Candle { bucket_start: lb, open: lopen, high: lhigh, low: llow, close: _, volume: lvol } = last;
            let widen_high = lhigh.le(&observations[i].price);
            let high = if widen_high {
                observations[i].price.duplicate()
            } else {
                lhigh
            };
            let keep_low = llow.le(&observations[i].price);
            let low = if keep_low {
                llow
            } else {
                observations[i].price.duplicate()
            };
            let merged = Candle {
                bucket_start: lb,
                open: lopen,
                high,
                low,
                close: observations[i].price.duplicate(),
                volume: lvol.add(&observations[i].volume),
            };
            proof {
                assert(old_out.last().wf());
                assert(merged@ == merge_obs(pre.last(), views[i as int]));
            }
            out.push(merged);
            proof {
                assert(candle_views(out@) =~= pre.update(
                    pre.len() - 1,
                    merge_obs(pre.last(), views[i as int]),
                ));
            }
        } else {
            let fresh = Candle {
                bucket_start: b,
                open: observations[i].price.duplicate(),
                high: observations[i].price.duplicate(),
                low: observations[i].price.duplicate(),
                close: observations[i].price.duplicate(),
                volume: observations[i].volume.duplicate(),
            };
            proof {
                assert(fresh@ == candle_of(views[i as int], interval_seconds as nat));
            }
            out.push(fresh);
            proof {
                assert(candle_views(out@) =~= pre.push(
                    candle_of(views[i as int], interval_seconds as nat),
                ));
            }
        }
        i = i + 1;
    }
    proof {
        assert(views.take(observations@.len() as int) =~= views);
    }
    out
}

/// Group observations, in whatever arrival order, into fixed-width,
/// calendar-aligned buckets and reduce each to one candle; the result is
/// ordered by bucket start and is a function of the observation set alone.
pub fn aggregate(observations: Vec<PriceObservation>, interval_seconds: u64) -> (r: Vec<Candle>)
    requires
        interval_seconds > 0,
        all_obs_wf(observations@),
    ensures
        all_candles_wf(r@),
        candle_views(r@) == spec_build(obs_views(observations@), interval_seconds as nat),
{
    let ghost orig = obs_views(observations@);
    let sorted = sort_observations(observations);
    proof {
        lemma_obs_leq_total_ordering();
        orig.lemma_sort_by_ensures(obs_leq());
        lemma_sorted_unique(obs_views(sorted@), orig.sort_by(obs_leq()), obs_leq());
    }
    aggregate_in_order(&sorted, interval_seconds)
}

/// The finished product: the ordered candles plus how much went in and out.
pub struct CandleSeries {
    pub candles: Vec<Candle>,
    pub observations_consumed: usize,
    pub candles_emitted: usize,
}

/// Sort the raw observations, delegate to the aggregator, and report the
/// counts. The output is deterministic for a given observation set
/// regardless of arrival order (see `lemma_build_permutation`), holds no
/// duplicate bucket and is ordered ascending by bucket start (see
/// `lemma_aggregate_buckets`), and every candle satisfies the OHLC
/// invariant (see `lemma_aggregate_ohlc`).
pub fn build(raw_observations: Vec<PriceObservation>, interval_seconds: u64) -> (r: CandleSeries)
    requires
        interval_seconds > 0,
        all_obs_wf(raw_observations@),
    ensures
        all_candles_wf(r.candles@),
        candle_views(r.candles@) == spec_build(
            obs_views(raw_observations@),
            interval_seconds as nat,
        ),
        r.observations_consumed == raw_observations@.len(),
        r.candles_emitted == r.candles@.len(),
{
    let n = raw_observations.len();
    let candles = aggregate(raw_observations, interval_seconds);
    let m = candles.len();
    CandleSeries { candles, observations_consumed: n, candles_emitted: m }
}

/// The full guarantees on a built series, stated directly of
/// `spec_build`: every candle satisfies the OHLC invariant; bucket starts
/// are aligned and strictly increasing, so none repeats; and every candle's
/// bucket is the bucket of at least one input observation — no empty bucket
/// is ever emitted.
pub proof fn lemma_build_properties(s: Seq<ObsV>, interval: nat)
    requires
        interval > 0,
        all_obs_v_wf(s),
    ensures
        forall|k: int|
            0 <= k < spec_build(s, interval).len() ==> candle_v_wf(
                #[trigger] spec_build(s, interval)[k],
            ) && candle_ohlc_ok(spec_build(s, interval)[k]),
        forall|k: int, k2: int|
            0 <= k < k2 < spec_build(s, interval).len() ==> (#[trigger] spec_build(
                s,
                interval,
            )[k]).bucket < (#[trigger] spec_build(s, interval)[k2]).bucket,
        forall|k: int|
            0 <= k < spec_build(s, interval).len() ==> (#[trigger] spec_build(
                s,
                interval,
            )[k]).bucket % interval == 0,
        forall|k: int|
            0 <= k < spec_build(s, interval).len() ==> exists|j: int|
                0 <= j < s.len() && (#[trigger] spec_build(s, interval)[k]).bucket
                    == spec_bucket_start(s[j].ts, interval),
{
    lemma_obs_leq_total_ordering();
    s.lemma_sort_by_ensures(obs_leq());
    let t = s.sort_by(obs_leq());
    assert forall|i: int| 0 <= i < t.len() implies obs_v_wf(#[trigger] t[i]) by {
        assert(t.contains(t[i]));
        assert(s.contains(t[i]));
        let j = choose|j: int| 0 <= j < s.len() && s[j] == t[i];
        assert(obs_v_wf(s[j]));
    }
    assert forall|i: int, j: int|
        0 <= i < j < t.len() implies (#[trigger] t[i]).ts <= (#[trigger] t[j]).ts by {
        assert(obs_leq()(t[i], t[j]));
    }
    lemma_aggregate_ohlc(t, interval);
    lemma_aggregate_buckets(t, interval);
    assert forall|k: int|
        0 <= k < spec_build(s, interval).len() implies exists|j: int|
        0 <= j < s.len() && (#[trigger] spec_build(s, interval)[k]).bucket == spec_bucket_start(
            s[j].ts,
            interval,
        ) by {
        let c = spec_build(s, interval)[k];
        let jt = choose|jt: int|
            0 <= jt < t.len() && c.bucket == spec_bucket_start(t[jt].ts, interval);
        assert(t.contains(t[jt]));
        assert(s.contains(t[jt]));
        let j = choose|j: int| 0 <= j < s.len() && s[j] == t[jt];
        assert(c.bucket == spec_bucket_start(s[j].ts, interval));
    }
}

} // verus!
