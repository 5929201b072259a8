//! Server-to-client state replication over a duplex connection: a named
//! snapshot lives on the server, and every mutation travels to remote
//! replicas as the minimal structural diff against the previous snapshot.
//!
//! - [`value`]: the JSON-like snapshot model — null, booleans, integers,
//!   byte strings, arrays, objects.
//! - [`patch`]: structural diffs and their re-application, with the proved
//!   round trip `apply(a, diff(a, b)) == b` and its idempotence.
//! - [`codec`]: the self-describing binary wire format; decoding is total
//!   and inverts encoding exactly.
//! - [`envelope`]: the wire record pairing a channel name with one diff.
//! - [`channel`]: the server side — one snapshot, one envelope per
//!   mutation, in mutation order.
//! - [`registry`]: the client side — replicas by name, plus the
//!   delayed-update queue for diffs that arrive before registration.
//! - [`client`]: the reconnect discipline, which leaves registry state
//!   untouched across connection drops.

pub mod channel;
pub mod client;
pub mod codec;
pub mod envelope;
pub mod patch;
pub mod registry;
pub mod value;
