//! Intraday quote acquisition and normalization: request parameters, the
//! typed record of one sampled interval, and the conversion of the
//! provider's text-valued series into a chronologically ordered sequence.
pub mod number;
pub mod request;
pub mod series;
pub mod timestamp;
