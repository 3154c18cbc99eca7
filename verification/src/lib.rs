//! Reconstruction of commute journeys from an ordered list of priced transit
//! legs.
//!
//! The input is a chronologically ordered sequence of billed legs, each with a
//! calendar date, a provider tag, two station names and a fare. The library
//! filters that sequence down to the legs that belong to a home/work journey
//! between caller-supplied station sets, stitching together multi-leg chains
//! of same-day transfers, and offers a business-day post-filter.

pub mod data;
pub mod laws;
pub mod trip_filter;
