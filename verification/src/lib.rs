//! User-based Security Model message security parameters.
//!
//! The [`SecurityParams`] record carries the per-message security metadata of
//! an SNMPv3-style management protocol: the authoritative engine's identity,
//! its anti-replay counters, the requesting user's name, and the
//! authentication and privacy parameter byte strings. The record is
//! serialized to, and parsed from, a fixed six-field ASN.1 SEQUENCE so that a
//! message-processing layer can embed it as an opaque octet string.

pub mod ber;
pub mod security_params;

pub use security_params::SecurityError;
pub use security_params::SecurityParams;
pub use security_params::SecurityParamsView;
pub use security_params::SecurityResult;
