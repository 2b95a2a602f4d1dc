//! What the walks over a menu give.

pub use crate::recfiltiter::Event;
