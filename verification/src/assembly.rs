//! The steps by which a menu is assembled. They work on places: a
//! declaration is known by its place in the list that the builder keeps, and
//! the links between declarations are lists of such places.

pub(crate) mod attach;
pub(crate) mod links;
pub(crate) mod parents;
