//! The decision core of an experimentation and feature-configuration
//! client: given a catalog of recipes and a local application context, it
//! decides deterministically, per recipe, whether this instance is
//! enrolled and which branch applies, and keeps that decision stable until
//! the recipe set or the context changes.
//!
//! - [`events`] — a time-bucketed event-counter store answering sliding
//!   window aggregate queries; instants are always passed in, never read
//!   from a clock.
//! - [`sampling`] — deterministic bucket assignment for percentage
//!   rollouts, derived from a SHA-256 hash.
//! - [`evaluator`] — a total, deterministic targeting-expression evaluator
//!   over a JSON-like context, with event-store queries bound in.
//! - [`enrollment`] — the per-recipe state machine and the reconciliation
//!   pass combining the three, with feature-conflict resolution and
//!   change events.
//! - [`error`] — the public error surface of the embedding persistence
//!   layer and its conversion rules.

pub mod enrollment;
pub mod error;
pub mod evaluator;
pub mod events;
pub mod sampling;
