//! A load-testing harness for one HTTP target, without the network.
//!
//! The library holds what the harness decides: how a body is resolved
//! ([`config`]), how a response is compared with the expected body
//! ([`verify`], [`encoding`]), which requests may be in flight at once and
//! what becomes of each response ([`dispatcher`]), what a whole run against
//! recorded replies results in ([`replay`]), and the mean and variance of the
//! elapsed times ([`stats`]). Sending the requests, reading files and printing
//! are left to the program around it.

pub mod config;
pub mod dispatcher;
pub mod encoding;
pub mod replay;
pub mod stats;
pub mod verify;
