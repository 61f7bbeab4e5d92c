//! Detection of shared watermarks ("emissions") among graded submissions.
//!
//! A line of graded output of the form `*ID*PAYLOAD` carries an emission: the
//! identifier `ID` and the base64-encoded text `PAYLOAD`. Each submission's
//! emissions form its index; the hunt groups submissions whose indices agree
//! on every identifier of a chosen subset.
pub mod emission;
pub mod emission_group;
pub mod grouping;
pub mod hunt;
pub mod loading;
pub mod ranking;
pub mod search;
pub mod submission;

pub use emission::{Emission, EmissionParseError};
pub use emission_group::EmissionsGroup;
pub use grouping::Grouping;
pub use hunt::hunt;
