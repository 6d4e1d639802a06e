//! Verified core of the `elmore` Elm-architecture web framework and of the
//! resource table built with it.

pub mod text;
pub mod model;
pub mod table;
pub mod html;
pub mod reconcile;
pub mod frames;
pub mod subscriptions;
pub mod resource_table;
