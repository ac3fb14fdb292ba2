//! What holds of every catalog and of every request.

pub mod depth;
pub mod independence;
pub mod reach;
pub mod requests;
