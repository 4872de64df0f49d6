//! Runtime-light contracts, routing and intelligence policy for Hacker House Medellín.
pub mod contracts;
pub mod intelligence;
pub mod ranking;
pub mod routing;
pub mod text;
