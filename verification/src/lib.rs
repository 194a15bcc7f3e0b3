//! Aggregation core for live aircraft telemetry: a depth-one background
//! job engine and a provider aggregator that queries every configured
//! data source in order, merges overlapping records deterministically,
//! and fails fast on the first provider error.

pub mod data;
pub mod providers;
pub mod request;

pub use data::AircraftData;
pub use data::AircraftMap;
pub use data::Error;
pub use providers::AircraftProvider;
pub use providers::Providers;
pub use providers::ResultAircraftData;
pub use providers::StaticProvider;
pub use request::Request;
