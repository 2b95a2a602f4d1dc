//! Hierarchical menus: a flat set of item declarations is assembled into an
//! ordered forest of menu items, which can then be walked flat or depth-first,
//! with scope events and an optional visibility filter.

mod assembly;
pub mod events;
pub mod flatiter;
pub mod forest;
pub mod iter;
pub mod menu;
pub mod menuitem;
pub mod order;
pub mod recfiltiter;

pub use crate::menu::Builder as MenuBuilder;
pub use crate::menuitem::Builder as MenuItemBuilder;
pub use crate::recfiltiter as reciter;
