//! Conversion of raw automated-market-maker pool state into normalized price
//! observations, and aggregation of those observations into fixed-interval
//! OHLCV candles.
//!
//! All arithmetic is exact: prices are rationals scaled by a power of ten and
//! volumes are finite decimals, both backed by an arbitrary-precision decimal
//! digit representation. Floating point is never used, so no precision is
//! lost between the raw on-chain integers and the rendered decimal strings.

pub mod digits;
pub mod rat;
pub mod price;
pub mod volume;
pub mod candles;
pub mod render;
pub mod events;

pub use candles::build;
pub use candles::Candle;
pub use candles::CandleSeries;
pub use candles::PriceObservation;
pub use digits::BigNat;
pub use rat::Rat;
