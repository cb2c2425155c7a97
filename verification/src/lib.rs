//! A registry that lets values held in a heterogeneous store be treated
//! polymorphically through a common capability interface, without the store
//! knowing that the interface exists.
//!
//! Concrete types are registered once, by identity token; afterwards any
//! value carrying that token can be narrowed to the interface through the
//! adapter capability ([`meta::CastFrom`]). The registry keeps registration
//! order, deduplicates entries, and offers keyed lookup as well as in-order
//! iteration that silently skips registered types the store does not
//! currently hold.

pub mod meta;
pub mod store;
