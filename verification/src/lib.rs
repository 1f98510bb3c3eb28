//! Two instrumented in-place sorting engines over one adapter protocol: a
//! bucket sort that distributes elements into adapter-chosen buckets and
//! comparison-sorts each, and an LSD radix sort of stable counting passes
//! over decimal digit places. Adapters are provided for signed 32-bit
//! integers, fixed-point real values, and strings that may spell numbers.
//! Both engines count comparisons and element moves per call.

pub mod order;
pub mod bucket;
pub mod radix;
pub mod digits;
pub mod int_adapter;
pub mod fixed;
pub mod text;
pub mod laws;
