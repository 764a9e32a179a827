//! The data model of fingerprints, boundaries, policies and reconciliation results.

use vstd::prelude::*;

use crate::order::Hash32;
use crate::text::copy_string;

verus! {

/// What kind of position a fingerprint records.
#[derive(Debug, Clone, Copy, PartialEq, Eq, Structural)]
pub enum PositionKind {
    KafkaOffset,
    PubsubMsgid,
    IcebergRow,
    CdcLsn,
    FileRow,
}

/// Where a record sits in its source or sink.
#[derive(Debug, Clone, PartialEq, Eq)]
pub struct Position {
    pub kind: PositionKind,
    pub value: Vec<u8>,
}

impl View for Position {
    type V = (PositionKind, Seq<u8>);

    open spec fn view(&self) -> (PositionKind, Seq<u8>) {
        (self.kind, self.value@)
    }
}

impl Position {
    /// A copy of this position.
    pub fn copy(&self) -> (r: Position)
        ensures
            r@ == self@,
    {
        Position { kind: self.kind, value: crate::text::copy_bytes(self.value.as_slice()) }
    }
}

/// A salted fingerprint of one record.
#[derive(Debug, Clone, PartialEq, Eq)]
pub struct Fingerprint {
    pub id_hash: Hash32,
    pub content_hash: Hash32,
    pub fp: Hash32,
    pub pos: Position,
}

/// Which side of a reconciliation a set of fingerprints comes from.
#[derive(Debug, Clone, Copy, PartialEq, Eq, Structural)]
pub enum Side {
    Source,
    Sink,
}

/// How a boundary is expressed.
#[derive(Debug, Clone, Copy, PartialEq, Eq, Structural)]
pub enum BoundaryMode {
    OffsetRange,
    TimeWindow,
    BatchId,
}

/// The boundary of a reconciliation: its mode and its encoded value.
#[derive(Debug, Clone, PartialEq, Eq)]
pub struct Boundary {
    pub mode: BoundaryMode,
    pub value: Vec<u8>,
}

/// Canonicalization settings.
#[derive(Debug, Clone, PartialEq, Eq)]
pub struct CanonSpec {
    pub version: u32,
    pub timestamp_precision: String,
    pub decimal_scale: u32,
    pub unicode: String,
    pub null_token: String,
    pub field_order: String,
    pub array_as_set: bool,
}

impl Default for CanonSpec {
    fn default() -> (r: Self)
        ensures
            r.version == 1,
            r.timestamp_precision@ == "micros"@,
            r.decimal_scale == 6,
            r.unicode@ == "NFC"@,
            r.null_token@ == seq!['\u{0000}'],
            r.field_order@ == "lexicographic"@,
            !r.array_as_set,
    {
        let null_token = copy_string("\u{0000}");
        proof {
            reveal_strlit("\u{0000}");
        }
        CanonSpec {
            version: 1,
            timestamp_precision: copy_string("micros"),
            decimal_scale: 6,
            unicode: copy_string("NFC"),
            null_token,
            field_order: copy_string("lexicographic"),
            array_as_set: false,
        }
    }
}

/// Whether extra sink copies of a record are tolerated.
#[derive(Debug, Clone, Copy, PartialEq, Eq, Structural)]
pub enum DuplicatePolicy {
    Forbid,
    AllowIfSinkIdempotent,
}

/// How many drops and mutations a reconciliation tolerates, and its duplicate policy.
#[derive(Debug, Clone, Copy, PartialEq, Eq, Structural)]
pub struct Tolerances {
    pub max_drops: u64,
    pub duplicates: DuplicatePolicy,
    pub max_mutations: u64,
}

impl Default for Tolerances {
    fn default() -> (r: Self)
        ensures
            r.max_drops == 0,
            r.duplicates == DuplicatePolicy::Forbid,
            r.max_mutations == 0,
    {
        Tolerances { max_drops: 0, duplicates: DuplicatePolicy::Forbid, max_mutations: 0 }
    }
}

/// A reconciliation policy.
#[derive(Debug, Clone, PartialEq, Eq)]
pub struct Policy {
    pub identity_rule: String,
    pub canon: CanonSpec,
    pub hash_algorithm: String,
    pub content_fields: Vec<String>,
    pub exclude_fields: Vec<String>,
    pub tolerances: Tolerances,
    pub late_arrival_window: String,
}

/// A count and Merkle root over a set of fingerprints.
#[derive(Debug, Clone, PartialEq, Eq)]
pub struct Commitment {
    pub count: u64,
    pub merkle_root: Hash32,
}

/// A source record with no counterpart in the sink, with its inclusion proof
/// in the source commitment.
#[derive(Debug, Clone, PartialEq, Eq)]
pub struct MissingRecord {
    pub id_hash: Hash32,
    pub source_pos: Position,
    pub merkle_leaf: Hash32,
    pub inclusion_proof: Vec<Hash32>,
}

/// An identity that the sink holds more often than the source.
#[derive(Debug, Clone, PartialEq, Eq)]
pub struct DuplicatedRecord {
    pub id_hash: Hash32,
    pub source_multiplicity: u64,
    pub sink_multiplicity: u64,
}

/// An identity whose content differs between source and sink.
#[derive(Debug, Clone, PartialEq, Eq)]
pub struct MutatedRecord {
    pub id_hash: Hash32,
    pub source_content_hash: Hash32,
    pub sink_content_hash: Hash32,
}

/// The outcome of a reconciliation.
#[derive(Debug, Clone, Copy, PartialEq, Eq, Structural)]
pub enum Verdict {
    Pass,
    Fail,
    Unverified,
}

/// The evidence and verdict of a reconciliation.
#[derive(Debug, Clone, PartialEq, Eq)]
pub struct ReconResult {
    pub matched: Commitment,
    pub missing: Vec<MissingRecord>,
    pub duplicated: Vec<DuplicatedRecord>,
    pub mutated: Vec<MutatedRecord>,
    pub verdict: Verdict,
    pub unverified_reason: Option<String>,
}

/// The fingerprints one side produced over a boundary.
#[derive(Debug, Clone, PartialEq, Eq)]
pub struct FingerprintSet {
    pub side: Side,
    pub boundary: Boundary,
    pub fingerprints: Vec<Fingerprint>,
}

impl FingerprintSet {
    /// The number of fingerprints.
    pub fn count(&self) -> (r: u64)
        ensures
            r == self.fingerprints@.len(),
    {
        self.fingerprints.len() as u64
    }
}

} // verus!
