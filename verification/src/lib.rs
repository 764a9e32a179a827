//! Verifiable reconciliation engine: canonical encoding of records, salted
//! fingerprints, sorted Merkle commitments and the drop / duplicate /
//! mutation reconciliation that decides a verdict.

pub mod canon;
pub mod cloud_config;
pub mod config;
pub mod connectors;
pub mod doctor;
pub mod dyn_connectors;
pub mod e2e;
pub mod error;
pub mod hash;
pub mod identity;
pub mod json;
pub mod kms;
pub mod merkle;
pub mod metrics;
pub mod model;
pub mod order;
pub mod policy_util;
pub mod proof_store;
pub mod recon;
pub mod record;
pub mod salt;
pub mod text;
