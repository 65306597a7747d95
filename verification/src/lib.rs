//! Enforcement perimeter for an actuation pipeline.
//!
//! Untrusted bytes arrive on an ingress connection, are framed into one
//! bounded HTTP message, matched against a single literal request schema,
//! base64-decoded under a hard size cap, and handed as a normalized action
//! to an external authorization engine through a fixed-layout boundary.
//! Only an authorized effect is serialized — exactly 32 little-endian
//! bytes — onto the egress channel towards the actuator. A boot sequencer
//! guarantees, fail-closed, that ingress never runs before the egress
//! channel stands.
//!
//! This crate holds the validation, decision-boundary and serialization
//! logic, all of it verified. The sockets, threads and the engine call
//! itself live outside it.
pub mod base64;
pub mod boot;
pub mod decision;
pub mod egress;
pub mod framer;
pub mod hash;
pub mod pipeline;
pub mod scan;
pub mod schema;
