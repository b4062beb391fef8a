//! A set of 64-bit particle keys kept as compressed partitions, with the space-filling-curve
//! encoders that turn quantized positions into such keys.

pub mod morton;
pub mod treemap;
pub mod curve;
pub mod quantize;
