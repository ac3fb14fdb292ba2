//! Crafting plans over a recipe catalog.
//!
//! A catalog holds items and their recipes. The calculator answers how many
//! crafting operations and how much base material a requested quantity of an
//! item costs, and keeps what each operation produced beyond the demand as
//! surplus for later requests.
//!
//! - [`source`] reads item records from JSON, [`catalog`] loads them,
//!   [`ranking`] gives each item its recipe depth and finds cycles.
//! - [`calculator`] carries out requests; [`model`] says what a request
//!   does, and [`laws`] what follows from that.
//! - [`command`] reads requests in their written form, [`report`] draws up
//!   and writes out the plan.

pub mod calculator;
pub mod catalog;
pub mod command;
pub mod decimal;
pub mod graph;
pub mod item;
pub mod laws;
pub mod ledger;
pub mod model;
pub mod ranking;
pub mod raw_materials;
pub mod report;
pub mod source;
pub mod text;
