//! Riff sessions for agents that improve each other's work.
//!
//! Agents riff on several specs at once ([`MultiSpecSession`]), learn which
//! response mode works for whom ([`RiffMemory`]), propose new specs
//! ([`SpecGenerator`]), and hand over to the next generation, which is checked
//! ([`BootstrapVerifier`]) and measured ([`SnowballTracker`]).
//!
//! Surprise, scores and rates are binary64 numbers ([`Binary64`]), computed on
//! integers and proved to be rounded as IEEE 754 asks.

use vstd::prelude::*;

pub mod accuracy;
pub mod binary64;
pub mod bootstrap;
pub mod dictionary;
pub mod generator;
pub mod memory;
pub mod metrics;
pub mod order;
pub mod riff;
pub mod rounding;
pub mod session;
pub mod snowball;
pub mod ternary;
pub mod text;

pub use binary64::Binary64;
pub use bootstrap::{BootstrapVerifier, GrowthCheck, VerifyResult};
pub use dictionary::Dictionary;
pub use generator::{SpecCandidate, SpecGenerator};
pub use memory::{ModeStats, RiffMemory};
pub use metrics::SessionMetrics;
pub use riff::{Quality, ResponseMode, Riff, Round};
pub use session::{MultiSpecSession, RiffSpec, RoundSummary};
pub use snowball::{GrowthRate, SnowballTracker};
pub use ternary::{pack_16, Trit};

verus! {

} // verus!
