//! The reconciliation configuration: source, sink, policy, keys and proof
//! store, its default template, and the core policy it stands for.

use vstd::prelude::*;

use crate::cloud_config::{CloudStoreConfig, KmsProviderConfig};
use crate::model::{CanonSpec, DuplicatePolicy, Policy, Tolerances};
use crate::text::{copy_string, copy_strings, str_eq, string_views};

verus! {

/// The key management service named in the configuration.
#[derive(Debug, Clone, PartialEq, Eq, Structural)]
pub enum KmsProvider {
    File,
    Aws,
    Gcp,
    Azure,
}

impl Default for KmsProvider {
    fn default() -> (r: Self)
        ensures
            r == KmsProvider::File,
    {
        KmsProvider::File
    }
}

/// The proof store kind named in the configuration.
#[derive(Debug, Clone, PartialEq, Eq, Structural)]
pub enum StoreKind {
    Local,
    S3,
    Gcs,
    Adls,
}

impl Default for StoreKind {
    fn default() -> (r: Self)
        ensures
            r == StoreKind::Local,
    {
        StoreKind::Local
    }
}

/// A whole reconciliation configuration.
#[derive(Debug, Clone)]
pub struct ReconConfig {
    pub producer: String,
    pub source: SourceConfig,
    pub sink: SinkConfig,
    pub policy: PolicyConfig,
    pub crypto: CryptoConfig,
    pub store: StoreConfig,
}

/// The source of records and its boundary.
#[derive(Debug, Clone)]
pub struct SourceConfig {
    pub kind: String,
    pub topic: String,
    pub bootstrap_servers: Option<String>,
    pub region: Option<String>,
    pub project: Option<String>,
    pub subscription: Option<String>,
    pub connection_string: Option<String>,
    pub boundary: KafkaBoundaryConfig,
}

/// Offset ranges per partition.
#[derive(Debug, Clone)]
pub struct KafkaBoundaryConfig {
    pub partitions: Vec<PartitionRange>,
}

/// An inclusive offset range of one partition.
#[derive(Debug, Clone, Copy)]
pub struct PartitionRange {
    pub id: i32,
    pub start: i64,
    pub end: i64,
}

/// The sink of records and its boundary.
#[derive(Debug, Clone)]
pub struct SinkConfig {
    pub kind: String,
    pub warehouse: Option<String>,
    pub warehouse_uri: Option<String>,
    pub table: String,
    pub dataset: Option<String>,
    pub catalog: Option<String>,
    pub schema: Option<String>,
    pub boundary: IcebergBoundaryConfig,
    pub expected_schema: Option<Vec<String>>,
}

/// An inclusive snapshot range, with an optional filter.
#[derive(Debug, Clone)]
pub struct IcebergBoundaryConfig {
    pub snapshot_from: i64,
    pub snapshot_to: i64,
    pub sql_filter: Option<String>,
}

/// The policy as written in the configuration.
#[derive(Debug, Clone)]
pub struct PolicyConfig {
    pub identity_rule: String,
    pub hash_algorithm: String,
    pub content_fields: Vec<String>,
    pub exclude_fields: Vec<String>,
    pub tolerances: TolerancesConfig,
    pub late_arrival_window: Option<String>,
}

/// Tolerances as written in the configuration.
#[derive(Debug, Clone)]
pub struct TolerancesConfig {
    pub max_drops: u64,
    pub max_mutations: u64,
    pub duplicates: String,
}

/// Signing keys.
#[derive(Debug, Clone)]
pub struct CryptoConfig {
    pub private_key_file: String,
    pub public_key_file: String,
    pub kms_provider: KmsProvider,
    pub kms_key_id: Option<String>,
    pub aws_region: Option<String>,
    pub azure_vault_url: Option<String>,
}

/// Where proofs are stored.
#[derive(Debug, Clone)]
pub struct StoreConfig {
    pub kind: StoreKind,
    pub proofs_dir: String,
    pub bucket: Option<String>,
    pub prefix: Option<String>,
    pub region: Option<String>,
    pub account: Option<String>,
    pub container: Option<String>,
}

/// The view of an optional string.
pub open spec fn opt_view(o: Option<String>) -> Option<Seq<char>> {
    match o {
        Some(s) => Some(s@),
        None => None,
    }
}

/// The configuration written by `init`: a memory Kafka topic `orders` with
/// offsets 0 to 4 of partition 0, the local Iceberg table `orders` at
/// snapshot 1, the composite identity of `order_id` and `line_id` hashed with
/// SHA-256, no tolerance, file keys and a local proof store.
pub open spec fn is_default_template(c: ReconConfig) -> bool {
    &&& c.producer@ == "veridata/0.1.0"@
    &&& c.source.kind@ == "memory_kafka"@
    &&& c.source.topic@ == "orders"@
    &&& c.source.bootstrap_servers is None
    &&& c.source.region is None
    &&& c.source.project is None
    &&& c.source.subscription is None
    &&& c.source.connection_string is None
    &&& c.source.boundary.partitions@.len() == 1
    &&& c.source.boundary.partitions@[0].id == 0
    &&& c.source.boundary.partitions@[0].start == 0
    &&& c.source.boundary.partitions@[0].end == 4
    &&& c.sink.kind@ == "iceberg"@
    &&& opt_view(c.sink.warehouse) == Some(".veridata/warehouse"@)
    &&& c.sink.warehouse_uri is None
    &&& c.sink.table@ == "orders"@
    &&& c.sink.dataset is None
    &&& c.sink.catalog is None
    &&& c.sink.schema is None
    &&& c.sink.boundary.snapshot_from == 1
    &&& c.sink.boundary.snapshot_to == 1
    &&& c.sink.boundary.sql_filter is None
    &&& c.sink.expected_schema is None
    &&& c.policy.identity_rule@ == "composite:[order_id,line_id]"@
    &&& c.policy.hash_algorithm@ == "sha256"@
    &&& string_views(c.policy.content_fields@) == seq![
        "order_id"@,
        "line_id"@,
        "amount"@,
        "status"@,
    ]
    &&& c.policy.exclude_fields@.len() == 0
    &&& c.policy.tolerances.max_drops == 0
    &&& c.policy.tolerances.max_mutations == 0
    &&& c.policy.tolerances.duplicates@ == "FORBID"@
    &&& opt_view(c.policy.late_arrival_window) == Some("900s"@)
    &&& c.crypto.private_key_file@ == ".veridata/keys/signing.key.b64"@
    &&& c.crypto.public_key_file@ == ".veridata/keys/signing.pub.b64"@
    &&& c.crypto.kms_provider == KmsProvider::File
    &&& c.crypto.kms_key_id is None
    &&& c.crypto.aws_region is None
    &&& c.crypto.azure_vault_url is None
    &&& c.store.kind == StoreKind::Local
    &&& c.store.proofs_dir@ == ".veridata/proofs"@
    &&& c.store.bucket is None
    &&& c.store.prefix is None
    &&& c.store.region is None
    &&& c.store.account is None
    &&& c.store.container is None
}

/// The duplicate policy a configuration names, if it names one.
pub open spec fn spec_duplicate_policy(s: Seq<char>) -> Option<DuplicatePolicy> {
    if s == "FORBID"@ {
        Some(DuplicatePolicy::Forbid)
    } else if s == "ALLOW_IF_SINK_IDEMPOTENT"@ {
        Some(DuplicatePolicy::AllowIfSinkIdempotent)
    } else {
        None
    }
}

/// The core policy of a configuration: its policy section with the default
/// canonicalization and a late-arrival window of `900s` unless one is set.
pub open spec fn is_core_policy(c: ReconConfig, p: Policy, dup: DuplicatePolicy) -> bool {
    &&& p.identity_rule@ == c.policy.identity_rule@
    &&& p.canon.version == 1
    &&& p.canon.timestamp_precision@ == "micros"@
    &&& p.canon.decimal_scale == 6
    &&& p.canon.unicode@ == "NFC"@
    &&& p.canon.null_token@ == seq!['\u{0000}']
    &&& p.canon.field_order@ == "lexicographic"@
    &&& !p.canon.array_as_set
    &&& p.hash_algorithm@ == c.policy.hash_algorithm@
    &&& string_views(p.content_fields@) == string_views(c.policy.content_fields@)
    &&& string_views(p.exclude_fields@) == string_views(c.policy.exclude_fields@)
    &&& p.tolerances.max_drops == c.policy.tolerances.max_drops
    &&& p.tolerances.duplicates == dup
    &&& p.tolerances.max_mutations == c.policy.tolerances.max_mutations
    &&& p.late_arrival_window@ == (match c.policy.late_arrival_window {
        Some(w) => w@,
        None => "900s"@,
    })
}

fn copy_opt(o: &Option<String>) -> (r: Option<String>)
    ensures
        opt_view(r) == opt_view(*o),
{
    match o {
        Some(s) => Some(copy_string(s.as_str())),
        None => None,
    }
}

impl ReconConfig {
    /// The configuration that `init` writes.
    pub fn default_template() -> (r: Self)
        ensures
            is_default_template(r),
    {
        let partitions: Vec<PartitionRange> = vec![PartitionRange { id: 0, start: 0, end: 4 }];
        let content_fields: Vec<String> = vec![
            copy_string("order_id"),
            copy_string("line_id"),
            copy_string("amount"),
            copy_string("status"),
        ];
        let r = ReconConfig {
            producer: copy_string("veridata/0.1.0"),
            source: SourceConfig {
                kind: copy_string("memory_kafka"),
                topic: copy_string("orders"),
                bootstrap_servers: None,
                region: None,
                project: None,
                subscription: None,
                connection_string: None,
                boundary: KafkaBoundaryConfig { partitions },
            },
            sink: SinkConfig {
                kind: copy_string("iceberg"),
                warehouse: Some(copy_string(".veridata/warehouse")),
                warehouse_uri: None,
                table: copy_string("orders"),
                dataset: None,
                catalog: None,
                schema: None,
                boundary: IcebergBoundaryConfig { snapshot_from: 1, snapshot_to: 1, sql_filter: None },
                expected_schema: None,
            },
            policy: PolicyConfig {
                identity_rule: copy_string("composite:[order_id,line_id]"),
                hash_algorithm: copy_string("sha256"),
                content_fields,
                exclude_fields: Vec::new(),
                tolerances: TolerancesConfig {
                    max_drops: 0,
                    max_mutations: 0,
                    duplicates: copy_string("FORBID"),
                },
                late_arrival_window: Some(copy_string("900s")),
            },
            crypto: CryptoConfig {
                private_key_file: copy_string(".veridata/keys/signing.key.b64"),
                public_key_file: copy_string(".veridata/keys/signing.pub.b64"),
                kms_provider: KmsProvider::File,
                kms_key_id: None,
                aws_region: None,
                azure_vault_url: None,
            },
            store: StoreConfig {
                kind: StoreKind::Local,
                proofs_dir: copy_string(".veridata/proofs"),
                bucket: None,
                prefix: None,
                region: None,
                account: None,
                container: None,
            },
        };
        assert(string_views(r.policy.content_fields@) =~= seq![
            "order_id"@,
            "line_id"@,
            "amount"@,
            "status"@,
        ]);
        r
    }

    /// The core policy this configuration stands for; a duplicate policy
    /// other than `FORBID` or `ALLOW_IF_SINK_IDEMPOTENT` is refused.
    pub fn to_core_policy(&self) -> (r: Result<Policy, String>)
        ensures
            match spec_duplicate_policy(self.policy.tolerances.duplicates@) {
                Some(d) => r matches Ok(p) && is_core_policy(*self, p, d),
                None => r matches Err(m) && m@ == "unknown duplicate policy: "@
                    + self.policy.tolerances.duplicates@,
            },
    {
        let dup_text = self.policy.tolerances.duplicates.as_str();
        let duplicates = if str_eq(dup_text, "FORBID") {
            DuplicatePolicy::Forbid
        } else if str_eq(dup_text, "ALLOW_IF_SINK_IDEMPOTENT") {
            DuplicatePolicy::AllowIfSinkIdempotent
        } else {
            let mut m = String::from_str("unknown duplicate policy: ");
            m.append(dup_text);
            return Err(m);
        };
        let late_arrival_window = match &self.policy.late_arrival_window {
            Some(w) => copy_string(w.as_str()),
            None => copy_string("900s"),
        };
        Ok(
            Policy {
                identity_rule: copy_string(self.policy.identity_rule.as_str()),
                canon: CanonSpec::default(),
                hash_algorithm: copy_string(self.policy.hash_algorithm.as_str()),
                content_fields: copy_strings(self.policy.content_fields.as_slice()),
                exclude_fields: copy_strings(self.policy.exclude_fields.as_slice()),
                tolerances: Tolerances {
                    max_drops: self.policy.tolerances.max_drops,
                    duplicates,
                    max_mutations: self.policy.tolerances.max_mutations,
                },
                late_arrival_window,
            },
        )
    }
}

/// The proof store backend that a store section names: a local directory,
/// or a bucket (S3, GCS) or account and container (ADLS) with a prefix
/// (empty when unset); a backend whose required name is unset is refused.
pub open spec fn spec_cloud_store_config(c: StoreConfig) -> Result<
    (StoreKind, Seq<char>, Seq<char>, Seq<char>, Option<Seq<char>>),
    Seq<char>,
> {
    let prefix = match c.prefix {
        Some(p) => p@,
        None => Seq::empty(),
    };
    match c.kind {
        StoreKind::Local => Ok((StoreKind::Local, c.proofs_dir@, Seq::empty(), Seq::empty(), None)),
        StoreKind::S3 => match c.bucket {
            Some(b) => Ok((StoreKind::S3, b@, prefix, Seq::empty(), opt_view(c.region))),
            None => Err("store.bucket required for s3"@),
        },
        StoreKind::Gcs => match c.bucket {
            Some(b) => Ok((StoreKind::Gcs, b@, prefix, Seq::empty(), None)),
            None => Err("store.bucket required for gcs"@),
        },
        StoreKind::Adls => match (c.account, c.container) {
            (Some(a), Some(ct)) => Ok((StoreKind::Adls, a@, ct@, prefix, None)),
            (None, _) => Err("store.account required for adls"@),
            (Some(_), None) => Err("store.container required for adls"@),
        },
    }
}

/// The backend description of a store: its kind, then for a local store the
/// directory; for S3 the bucket, prefix and region; for GCS the bucket and
/// prefix; for ADLS the account, container and prefix.
pub open spec fn store_config_view(c: CloudStoreConfig) -> (
    StoreKind,
    Seq<char>,
    Seq<char>,
    Seq<char>,
    Option<Seq<char>>,
) {
    match c {
        CloudStoreConfig::Local { path } => (StoreKind::Local, path@, Seq::empty(), Seq::empty(), None),
        CloudStoreConfig::S3 { bucket, prefix, region } => (
            StoreKind::S3,
            bucket@,
            prefix@,
            Seq::empty(),
            opt_view(region),
        ),
        CloudStoreConfig::Gcs { bucket, prefix } => (
            StoreKind::Gcs,
            bucket@,
            prefix@,
            Seq::empty(),
            None,
        ),
        CloudStoreConfig::Adls { account, container, prefix } => (
            StoreKind::Adls,
            account@,
            container@,
            prefix@,
            None,
        ),
    }
}

/// The proof store backend that a store section names.
pub fn cloud_store_config(config: &StoreConfig) -> (r: Result<CloudStoreConfig, String>)
    ensures
        match spec_cloud_store_config(*config) {
            Ok(v) => r matches Ok(c) && store_config_view(c) == v,
            Err(m) => r matches Err(e) && e@ == m,
        },
{
    let prefix = match &config.prefix {
        Some(p) => copy_string(p.as_str()),
        None => String::new(),
    };
    match config.kind {
        StoreKind::Local => Ok(CloudStoreConfig::Local { path: copy_string(config.proofs_dir.as_str()) }),
        StoreKind::S3 => match &config.bucket {
            Some(b) => Ok(
                CloudStoreConfig::S3 {
                    bucket: copy_string(b.as_str()),
                    prefix,
                    region: copy_opt(&config.region),
                },
            ),
            None => Err(copy_string("store.bucket required for s3")),
        },
        StoreKind::Gcs => match &config.bucket {
            Some(b) => Ok(CloudStoreConfig::Gcs { bucket: copy_string(b.as_str()), prefix }),
            None => Err(copy_string("store.bucket required for gcs")),
        },
        StoreKind::Adls => match &config.account {
            None => Err(copy_string("store.account required for adls")),
            Some(a) => match &config.container {
                None => Err(copy_string("store.container required for adls")),
                Some(ct) => Ok(
                    CloudStoreConfig::Adls {
                        account: copy_string(a.as_str()),
                        container: copy_string(ct.as_str()),
                        prefix,
                    },
                ),
            },
        },
    }
}

/// The signing service of a key configuration.
pub fn kms_provider_config(p: &KmsProvider) -> (r: KmsProviderConfig)
    ensures
        r == (match *p {
            KmsProvider::File => KmsProviderConfig::File,
            KmsProvider::Aws => KmsProviderConfig::Aws,
            KmsProvider::Gcp => KmsProviderConfig::Gcp,
            KmsProvider::Azure => KmsProviderConfig::Azure,
        }),
{
    match p {
        KmsProvider::File => KmsProviderConfig::File,
        KmsProvider::Aws => KmsProviderConfig::Aws,
        KmsProvider::Gcp => KmsProviderConfig::Gcp,
        KmsProvider::Azure => KmsProviderConfig::Azure,
    }
}

} // verus!
