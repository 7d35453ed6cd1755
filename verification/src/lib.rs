//! Context switcher for credential profiles kept in an INI-like file.
//!
//! The heart of the crate is a verified parser and serializer for the
//! credentials file, together with the profile-activation model built on it:
//! a profile is "active" exactly when its attributes are mirrored into the
//! reserved `default` section.

pub mod configs;
pub mod creds;
pub mod ctx;
pub mod laws;
pub mod lines;
pub mod model;
pub mod strs;
pub mod view;
