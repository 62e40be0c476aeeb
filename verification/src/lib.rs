//! A library of small verified kernels: integer helpers, sequence and string
//! algorithms, and the sequential core of a set of thread-pool patterns
//! (parallel map, chunked partition, fan-out/fan-in, guarded shared state and
//! a bounded worker pool). Every function carries a contract that pins down
//! its result; the thread-spawning shells that deploy the concurrency kernels
//! live outside the verified library and call into it.

pub mod concurrency;
pub mod errors;
pub mod frequencies;
pub mod generics;
pub mod math;
pub mod order;
pub mod pointers;
pub mod sequences;
pub mod strings;
pub mod text;
