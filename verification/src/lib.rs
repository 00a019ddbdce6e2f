//! Reconciliation of PaX marks: the five feature toggles that are stored as
//! one letter each, upper case for enabled and lower case for disabled.

pub mod delta;
pub mod laws;
pub mod marks;
pub mod reconcile;
pub mod stored;
