//! Exact decimal rendering.
//!
//! Values are printed with a fixed number of fractional digits (rounded
//! toward zero), never in scientific notation, so downstream consumers see
//! no floating-point artifacts.

use vstd::prelude::*;
use vstd::string::StrSliceExecFns;
use vstd::string::StringExecFns;
use crate::digits::BigNat;
use crate::digits::digit_at;
use crate::digits::lemma_digits_canonical;
use crate::digits::nat_digits;
use crate::digits::pow10;
use crate::candles::Candle;
use crate::candles::all_candles_wf;
use crate::rat::Rat;
use crate::rat::RatV;

verus! {

/// The character for one decimal digit.
pub open spec fn char_of_digit(d: nat) -> char {
    if d == 0 {
        '0'
    } else if d == 1 {
        '1'
    } else if d == 2 {
        '2'
    } else if d == 3 {
        '3'
    } else if d == 4 {
        '4'
    } else if d == 5 {
        '5'
    } else if d == 6 {
        '6'
    } else if d == 7 {
        '7'
    } else if d == 8 {
        '8'
    } else {
        '9'
    }
}

fn digit_str(d: u8) -> (r: &'static str)
    requires
        d < 10,
    ensures
        r@ == seq![char_of_digit(d as nat)],
{
    if d == 0 {
        proof {
            reveal_strlit("0");
            assert("0"@ =~= seq![char_of_digit(0)]);
        }
        "0"
    } else if d == 1 {
        proof {
            reveal_strlit("1");
            assert("1"@ =~= seq![char_of_digit(1)]);
        }
        "1"
    } else if d == 2 {
        proof {
            reveal_strlit("2");
            assert("2"@ =~= seq![char_of_digit(2)]);
        }
        "2"
    } else if d == 3 {
        proof {
            reveal_strlit("3");
            assert("3"@ =~= seq![char_of_digit(3)]);
        }
        "3"
    } else if d == 4 {
        proof {
            reveal_strlit("4");
            assert("4"@ =~= seq![char_of_digit(4)]);
        }
        "4"
    } else if d == 5 {
        proof {
            reveal_strlit("5");
            assert("5"@ =~= seq![char_of_digit(5)]);
        }
        "5"
    } else if d == 6 {
        proof {
            reveal_strlit("6");
            assert("6"@ =~= seq![char_of_digit(6)]);
        }
        "6"
    } else if d == 7 {
        proof {
            reveal_strlit("7");
            assert("7"@ =~= seq![char_of_digit(7)]);
        }
        "7"
    } else if d == 8 {
        proof {
            reveal_strlit("8");
            assert("8"@ =~= seq![char_of_digit(8)]);
        }
        "8"
    } else {
        proof {
            reveal_strlit("9");
            assert("9"@ =~= seq![char_of_digit(9)]);
        }
        "9"
    }
}

/// The value scaled by `10^frac` and rounded toward zero: the integer whose
/// digits, split `frac` places from the right, render the value exactly.
pub open spec fn scaled_floor(v: RatV, frac: nat) -> nat {
    if v.e + frac >= 0 {
        (v.n * pow10((v.e + frac) as nat)) / v.d
    } else {
        v.n / (v.d * pow10((-(v.e + frac)) as nat))
    }
}

/// The decimal text of the integer `m` read as a fixed-point value with
/// `frac` fractional digits: integer digits (at least one), a point, then
/// exactly `frac` digits.
pub open spec fn spec_decimal_chars(m: nat, frac: nat) -> Seq<char> {
    let ds = nat_digits(m);
    let int_chars = if ds.len() <= frac {
        seq!['0']
    } else {
        Seq::new((ds.len() - frac) as nat, |t: int| char_of_digit(ds[ds.len() - 1 - t] as nat))
    };
    let frac_chars = Seq::new(frac, |t: int| char_of_digit(digit_at(ds, (frac - 1 - t) as nat)));
    int_chars + seq!['.'] + frac_chars
}

/// What rendering a value with `frac` fractional digits must produce.
pub open spec fn spec_render(v: RatV, frac: nat) -> Seq<char> {
    spec_decimal_chars(scaled_floor(v, frac), frac)
}

/// Render a value as a decimal string with exactly `frac_digits`
/// fractional digits, rounded toward zero.
pub fn render_rat(value: &Rat, frac_digits: usize) -> (r: String)
    requires
        value.wf(),
        frac_digits <= 1000,
    ensures
        r@ == spec_render(value@, frac_digits as nat),
{
    let shift: i32 = value.exp + frac_digits as i32;
    let md: BigNat = if shift >= 0 {
        value.num.shl10(shift as usize).div_rem(value.den).0
    } else {
        let k: usize = (-shift) as usize;
        proof {
            crate::digits::lemma_pow10_pos(k as nat);
            vstd::arithmetic::div_mod::lemma_div_denominator(
                value.num.val() as int,
                value.den as int,
                pow10(k as nat) as int,
            );
        }
        value.num.div_rem(value.den).0.shr10(k)
    };
    let ghost m = scaled_floor(value@, frac_digits as nat);
    proof {
        assert(md.val() == m);
        lemma_digits_canonical(md.digits@);
    }
    let ghost ds = nat_digits(m);
    let ds_len = md.digits.len();
    let mut out = String::new();
    if ds_len <= frac_digits {
        out.append(digit_str(0));
        proof {
            assert(out@ =~= seq!['0']);
        }
    } else {
        let mut i: usize = ds_len;
        while i > frac_digits
            invariant
                frac_digits <= i <= ds_len,
                ds_len == ds.len(),
                ds == md.digits@,
                md.wf(),
                out@ =~= Seq::new(
                    (ds_len - i) as nat,
                    |t: int| char_of_digit(ds[ds_len - 1 - t] as nat),
                ),
            decreases i,
        {
            let ghost old_view = out@;
            out.append(digit_str(md.digits[i - 1]));
            i = i - 1;
            proof {
                assert(out@ =~= Seq::new(
                    (ds_len - i) as nat,
                    |t: int| char_of_digit(ds[ds_len - 1 - t] as nat),
                ));
            }
        }
        proof {
            assert(out@ =~= Seq::new(
                (ds_len - frac_digits) as nat,
                |t: int| char_of_digit(ds[ds_len - 1 - t] as nat),
            ));
        }
    }
    let ghost int_chars = out@;
    proof {
        reveal_strlit(".");
        assert("."@ =~= seq!['.']);
    }
    out.append(".");
    let mut j: usize = frac_digits;
    while j > 0
        invariant
            j <= frac_digits,
            ds_len == ds.len(),
            ds == md.digits@,
            md.wf(),
            out@ =~= int_chars + seq!['.'] + Seq::new(
                (frac_digits - j) as nat,
                |t: int| char_of_digit(digit_at(ds, (frac_digits - 1 - t) as nat)),
            ),
        decreases j,
    {
        let idx = j - 1;
        let d: u8 = if idx < ds_len {
            md.digits[idx]
        } else {
            0
        };
        proof {
            assert(d as nat == digit_at(ds, idx as nat));
        }
        out.append(digit_str(d));
        j = j - 1;
        proof {
            assert(out@ =~= int_chars + seq!['.'] + Seq::new(
                (frac_digits - j) as nat,
                |t: int| char_of_digit(digit_at(ds, (frac_digits - 1 - t) as nat)),
            ));
        }
    }
    proof {
        assert(out@ =~= spec_render(value@, frac_digits as nat));
    }
    out
}

/// The fractional precision a displayed token amount gets: four digits at
/// one unit or more, eight down to one ten-thousandth, twelve below that.
pub open spec fn token_amount_precision(amount: nat, decimals: nat) -> nat {
    if amount >= pow10(decimals) {
        4
    } else if amount * pow10(4) >= pow10(decimals) {
        8
    } else {
        12
    }
}

/// Format a raw token amount, normalized by the token's decimals, with
/// magnitude-dependent precision.
pub fn format_token_amount(amount: u128, decimals: u8) -> (r: String)
    ensures
        r@ == spec_render(
            RatV { n: amount as nat, d: 1, e: -(decimals as int) },
            token_amount_precision(amount as nat, decimals as nat),
        ),
{
    let n = BigNat::from_u128(amount);
    let one_unit = BigNat::from_u128(1).shl10(decimals as usize);
    let frac: usize = if one_unit.le(&n) {
        proof {
            assert(1 * pow10(decimals as nat) == pow10(decimals as nat)) by (nonlinear_arith);
        }
        4
    } else {
        let scaled = n.shl10(4);
        if one_unit.le(&scaled) {
            proof {
                assert(1 * pow10(decimals as nat) == pow10(decimals as nat)) by (nonlinear_arith);
            }
            8
        } else {
            proof {
                assert(1 * pow10(decimals as nat) == pow10(decimals as nat)) by (nonlinear_arith);
            }
            12
        }
    };
    let value = Rat::decimal(n, -(decimals as i32));
    render_rat(&value, frac)
}

/// The largest bucket start whose millisecond form still fits in a `u64`.
pub const MAX_BUCKET_SECS: u64 = 18446744073709551;

/// A candle rendered for downstream consumers: milliseconds since the
/// epoch, prices with 32 fractional digits, volume with 16.
pub struct CandleRecord {
    pub timestamp_ms: u64,
    pub open: String,
    pub high: String,
    pub low: String,
    pub close: String,
    pub volume: String,
}

pub fn render_candle(c: &Candle) -> (r: CandleRecord)
    requires
        c.wf(),
        c.bucket_start <= MAX_BUCKET_SECS,
    ensures
        r.timestamp_ms == c.bucket_start * 1000,
        r.open@ == spec_render(c@.open, 32),
        r.high@ == spec_render(c@.high, 32),
        r.low@ == spec_render(c@.low, 32),
        r.close@ == spec_render(c@.close, 32),
        r.volume@ == spec_render(c@.vol, 16),
{
    CandleRecord {
        timestamp_ms: c.bucket_start * 1000,
        open: render_rat(&c.open, 32),
        high: render_rat(&c.high, 32),
        low: render_rat(&c.low, 32),
        close: render_rat(&c.close, 32),
        volume: render_rat(&c.volume, 16),
    }
}

/// Render a whole candle series, in order.
pub fn render_series(candles: &Vec<Candle>) -> (r: Vec<CandleRecord>)
    requires
        all_candles_wf(candles@),
        forall|i: int|
            0 <= i < candles@.len() ==> (#[trigger] candles@[i]).bucket_start <= MAX_BUCKET_SECS,
    ensures
        r@.len() == candles@.len(),
        forall|i: int|
            0 <= i < candles@.len() ==> {
                let c = #[trigger] candles@[i];
                &&& r@[i].timestamp_ms == c.bucket_start * 1000
                &&& r@[i].open@ == spec_render(c@.open, 32)
                &&& r@[i].high@ == spec_render(c@.high, 32)
                &&& r@[i].low@ == spec_render(c@.low, 32)
                &&& r@[i].close@ == spec_render(c@.close, 32)
                &&& r@[i].volume@ == spec_render(c@.vol, 16)
            },
{
    let mut out: Vec<CandleRecord> = Vec::new();
    let mut i: usize = 0;
    while i < candles.len()
        invariant
            i <= candles@.len(),
            all_candles_wf(candles@),
            forall|k: int|
                0 <= k < candles@.len() ==> (#[trigger] candles@[k]).bucket_start
                    <= MAX_BUCKET_SECS,
            out@.len() == i,
            forall|k: int|
                0 <= k < i ==> {
                    let c = #[trigger] candles@[k];
                    &&& out@[k].timestamp_ms == c.bucket_start * 1000
                    &&& out@[k].open@ == spec_render(c@.open, 32)
                    &&& out@[k].high@ == spec_render(c@.high, 32)
                    &&& out@[k].low@ == spec_render(c@.low, 32)
                    &&& out@[k].close@ == spec_render(c@.close, 32)
                    &&& out@[k].volume@ == spec_render(c@.vol, 16)
                },
        decreases candles@.len() - i,
    {
        let rec = render_candle(&candles[i]);
        out.push(rec);
        i = i + 1;
    }
    out
}

} // verus!
