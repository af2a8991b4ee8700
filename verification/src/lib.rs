//! Verified core of a Golem-network node: the activity state model and the
//! service-bus router that connects clients to the services they call.

pub mod activity_state;
pub mod str_collections;
pub mod gsb;
pub mod dispatcher;
pub mod router;
pub mod laws;
