//! Verified core of a Thai vocabulary trainer: Leitner scheduling, quiz
//! modes, request validation, routing and session handling.

pub mod schedule;
pub mod text;
pub mod numbers;
pub mod requests;
pub mod auth;
pub mod routing;
pub mod listing;
