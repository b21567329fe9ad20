//! Client logic for a rate-limited, occasionally unreliable game-data API:
//! the data shapes it returns, the endpoint URLs, the retry state machine that
//! drives one request, the freshness gate for auction snapshots, the
//! connected-realm clusterer and a sliding-window rate limiter.
pub mod model;
pub mod freshness;
pub mod clusterer;
pub mod executor;
pub mod rate_limiter;
pub mod endpoints;
