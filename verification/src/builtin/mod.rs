//! Functions of the host that need nothing but values: logic, text
//! joining, status handling, lists, texts, random numbers, and the
//! computing part of requests.

pub mod iter;
pub mod json;
pub mod logic;
pub mod math;
pub mod net;
pub mod standard;
pub mod strings;
