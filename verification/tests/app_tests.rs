use veridata::cloud_config::{producer_with_kms, signer_key_id, CloudStoreConfig, KmsProviderConfig};
use veridata::connectors::snapshot_columns;
use veridata::record::{CanonValue, Record};
use veridata::config::{
    cloud_store_config, kms_provider_config, KmsProvider, PartitionRange, ReconConfig, StoreConfig,
    StoreKind,
};
use veridata::connectors::{
    snapshots_in_range, BigQuerySinkConnector, EventHubsSourceConnector, IcebergSinkConnector,
    KafkaSourceConnector, MemoryKafkaSource, MskKafkaSource, PubSubSourceConnector,
    SnapshotManifest,
};
use base64::Engine;
use veridata::connectors::{encode_kafka_pos, iceberg_pos};
use veridata::doctor::DoctorReport;
use veridata::proof_store::{latest_object, object_key, proof_file_name};
use veridata::dyn_connectors::{
    build_sink, build_source, kafka_boundary, parse_s3_uri, sink_boundary, DynSink, DynSource,
    S3Location,
};
use veridata::model::BoundaryMode;
use veridata::e2e::{fault_action, first_leaked_value, str_contains, Fault, FaultAction};
use veridata::metrics::Metrics;
use veridata::model::DuplicatePolicy;

#[test]
fn ac_e4_1_prometheus_format() {
    let mut m = Metrics::default();
    m.record_reconcile();
    m.record_verify(true);
    let text = m.render_prometheus();
    assert!(text.contains("veridata_reconcile_total 1"));
    assert!(text.contains("result=\"pass\"} 1"));
}

#[test]
fn hash_sql_includes_sha256() {
    let c = BigQuerySinkConnector::new("p", "d", "t");
    let sql = c.hash_sql(&["a".into(), "b".into()], None);
    assert!(sql.contains("SHA256"));
    assert!(sql.contains("p.d.t"));
}

#[test]
fn msk_module_compiles() {
    let _ = MskKafkaSource::new("broker:9098", "orders", "us-east-1");
    assert!(true);
}

#[test]
fn prometheus_text_exact() {
    let mut m = Metrics::default();
    m.record_reconcile();
    m.record_reconcile();
    m.record_verify(false);
    m.record_verify(true);
    m.record_verify(false);
    assert_eq!(m.reconcile_total, 2);
    assert_eq!(m.verify_pass, 1);
    assert_eq!(m.verify_fail, 2);
    assert_eq!(
        m.render_prometheus(),
        "# HELP veridata_reconcile_total Reconcile operations completed\n\
         # TYPE veridata_reconcile_total counter\n\
         veridata_reconcile_total 2\n\
         # HELP veridata_verify_outcome_total Verify outcomes by result\n\
         # TYPE veridata_verify_outcome_total counter\n\
         veridata_verify_outcome_total{result=\"pass\"} 1\n\
         veridata_verify_outcome_total{result=\"fail\"} 2\n"
    );
    let big = Metrics { reconcile_total: 1234567890, verify_pass: 0, verify_fail: 10 };
    let text = big.render_prometheus();
    assert!(text.contains("veridata_reconcile_total 1234567890\n"));
    assert!(text.contains("result=\"pass\"} 0\n"));
    assert!(text.contains("result=\"fail\"} 10\n"));
}

#[test]
fn hash_sql_exact() {
    let c = BigQuerySinkConnector::new("p", "d", "t");
    assert_eq!(
        c.hash_sql(&["a".into(), "b".into()], Some("x > 1")),
        "SELECT TO_HEX(SHA256(COALESCE(CAST(`a` AS STRING), '') || '|' || \
         COALESCE(CAST(`b` AS STRING), ''))) AS row_hash FROM `p.d.t` WHERE x > 1"
    );
    assert_eq!(
        c.hash_sql(&[], None),
        "SELECT TO_HEX(SHA256()) AS row_hash FROM `p.d.t`"
    );
}

#[test]
fn connector_constructors_keep_settings() {
    let e = EventHubsSourceConnector::new("Endpoint=sb://x", "orders");
    assert_eq!(e.connection_string, "Endpoint=sb://x");
    assert_eq!(e.topic, "orders");
    let p = PubSubSourceConnector::new("proj", "sub");
    assert_eq!(p.project, "proj");
    assert_eq!(p.subscription, "sub");
    let m = MskKafkaSource::new("b:9098", "t", "eu-west-1");
    assert_eq!(m.bootstrap_servers, "b:9098");
    assert_eq!(m.region, "eu-west-1");
    let i = IcebergSinkConnector::new("/tmp/wh", "orders");
    assert_eq!(i.config.root, "/tmp/wh");
    assert_eq!(i.config.table, "orders");
}

#[test]
fn default_template_values() {
    let c = ReconConfig::default_template();
    assert_eq!(c.producer, "veridata/0.1.0");
    assert_eq!(c.source.kind, "memory_kafka");
    assert_eq!(c.source.boundary.partitions.len(), 1);
    assert_eq!(c.source.boundary.partitions[0].end, 4);
    assert_eq!(c.sink.warehouse.as_deref(), Some(".veridata/warehouse"));
    assert_eq!(c.policy.content_fields, vec!["order_id", "line_id", "amount", "status"]);
    assert_eq!(c.policy.late_arrival_window.as_deref(), Some("900s"));
    assert_eq!(c.crypto.kms_provider, KmsProvider::File);
    assert_eq!(c.store.kind, StoreKind::Local);
    assert_eq!(c.store.proofs_dir, ".veridata/proofs");
}

#[test]
fn to_core_policy_maps_duplicates() {
    let mut c = ReconConfig::default_template();
    let p = c.to_core_policy().unwrap();
    assert_eq!(p.tolerances.duplicates, DuplicatePolicy::Forbid);
    assert_eq!(p.identity_rule, "composite:[order_id,line_id]");
    assert_eq!(p.late_arrival_window, "900s");
    assert_eq!(p.canon.decimal_scale, 6);
    c.policy.tolerances.duplicates = "ALLOW_IF_SINK_IDEMPOTENT".into();
    c.policy.late_arrival_window = None;
    let p = c.to_core_policy().unwrap();
    assert_eq!(p.tolerances.duplicates, DuplicatePolicy::AllowIfSinkIdempotent);
    assert_eq!(p.late_arrival_window, "900s");
    c.policy.tolerances.duplicates = "SOMETIMES".into();
    assert_eq!(c.to_core_policy().unwrap_err(), "unknown duplicate policy: SOMETIMES");
}

fn store(kind: StoreKind) -> StoreConfig {
    StoreConfig {
        kind,
        proofs_dir: "proofs".into(),
        bucket: None,
        prefix: None,
        region: None,
        account: None,
        container: None,
    }
}

#[test]
fn cloud_store_config_requirements() {
    assert_eq!(
        cloud_store_config(&store(StoreKind::Local)).unwrap(),
        CloudStoreConfig::Local { path: "proofs".into() }
    );
    assert_eq!(cloud_store_config(&store(StoreKind::S3)).unwrap_err(), "store.bucket required for s3");
    assert_eq!(cloud_store_config(&store(StoreKind::Gcs)).unwrap_err(), "store.bucket required for gcs");
    assert_eq!(
        cloud_store_config(&store(StoreKind::Adls)).unwrap_err(),
        "store.account required for adls"
    );
    let mut s = store(StoreKind::Adls);
    s.account = Some("acct".into());
    assert_eq!(cloud_store_config(&s).unwrap_err(), "store.container required for adls");
    s.container = Some("c".into());
    assert_eq!(
        cloud_store_config(&s).unwrap(),
        CloudStoreConfig::Adls { account: "acct".into(), container: "c".into(), prefix: "".into() }
    );
    let mut s = store(StoreKind::S3);
    s.bucket = Some("b".into());
    s.prefix = Some("p".into());
    s.region = Some("r".into());
    assert_eq!(
        cloud_store_config(&s).unwrap(),
        CloudStoreConfig::S3 { bucket: "b".into(), prefix: "p".into(), region: Some("r".into()) }
    );
    assert_eq!(CloudStoreConfig::default(), CloudStoreConfig::Local { path: ".veridata/proofs".into() });
}

#[test]
fn kms_provider_mapping() {
    assert_eq!(kms_provider_config(&KmsProvider::Aws), KmsProviderConfig::Aws);
    assert_eq!(kms_provider_config(&KmsProvider::Azure), KmsProviderConfig::Azure);
    assert_eq!(KmsProviderConfig::default(), KmsProviderConfig::File);
}

#[test]
fn producer_with_kms_appends_key() {
    assert_eq!(producer_with_kms("veridata/0.1.0", "aws", Some("arn:k")), "veridata/0.1.0 kms=aws/arn:k");
    assert_eq!(producer_with_kms("veridata/0.1.0", "file", None), "veridata/0.1.0");
}

#[test]
fn snapshots_selected_by_range() {
    let ms = vec![
        SnapshotManifest { snapshot_id: 1, files: vec!["a".into()] },
        SnapshotManifest { snapshot_id: 5, files: vec![] },
        SnapshotManifest { snapshot_id: 3, files: vec!["c".into()] },
    ];
    let sel: Vec<i64> = snapshots_in_range(&ms, 1, 3).iter().map(|m| m.snapshot_id).collect();
    assert_eq!(sel, vec![1, 3]);
    assert!(snapshots_in_range(&ms, 6, 9).is_empty());
}

#[test]
fn memory_topic_payloads() {
    let mut src = MemoryKafkaSource::new("orders");
    src.produce(0, 0, b"a");
    src.produce(0, 2, b"c");
    src.produce(1, 1, b"x");
    src.produce(0, 0, b"A");
    assert_eq!(src.payload(0, 0), Some(&b"A".to_vec()));
    assert_eq!(src.payload(0, 1), None);
    let parts = [
        PartitionRange { id: 0, start: 0, end: 2 },
        PartitionRange { id: 1, start: 0, end: 5 },
        PartitionRange { id: 2, start: 0, end: 5 },
        PartitionRange { id: 0, start: 3, end: 1 },
    ];
    assert_eq!(
        src.payloads_in_ranges(&parts),
        vec![b"A".to_vec(), b"c".to_vec(), b"x".to_vec()]
    );
}

#[test]
fn fault_actions() {
    assert_eq!(fault_action(Fault::NoFault, 3), FaultAction::Keep);
    assert_eq!(fault_action(Fault::Drop(1), 3), FaultAction::Remove(1));
    assert_eq!(fault_action(Fault::Drop(3), 3), FaultAction::Keep);
    assert_eq!(fault_action(Fault::Duplicate(0), 1), FaultAction::AppendCopy(0));
    assert_eq!(
        fault_action(Fault::Mutate { index: 2, field: "amount", value: "dec:999.99" }, 3),
        FaultAction::SetField { index: 2, field: "amount", value: "dec:999.99" }
    );
    assert_eq!(
        fault_action(Fault::Mutate { index: 3, field: "amount", value: "x" }, 3),
        FaultAction::Keep
    );
    assert!(matches!(Fault::default(), Fault::NoFault));
}

#[test]
fn leaked_values_found() {
    let json = r#"{"id":"ab12","verdict":"PASS"}"#;
    assert_eq!(first_leaked_value(json, &["1000", "shipped"]), None);
    assert_eq!(first_leaked_value(json, &["1000", "PASS", "ab"]), Some(1));
    assert!(str_contains("abc", ""));
    assert!(!str_contains("", "a"));
    assert!(str_contains("abc", "bc"));
}

#[test]
fn doctor_all_ok() {
    let ok = DoctorReport { checks: vec![("config".into(), true, "x".into())] };
    assert!(ok.all_ok());
    let bad = DoctorReport {
        checks: vec![("config".into(), true, "x".into()), ("keys".into(), false, "y".into())],
    };
    assert!(!bad.all_ok());
    assert!(DoctorReport { checks: vec![] }.all_ok());
}

#[test]
fn parse_s3_uri_splits_bucket_and_prefix() {
    assert_eq!(parse_s3_uri("s3://b/some/prefix").unwrap(), ("b".to_string(), "some/prefix".to_string()));
    assert_eq!(parse_s3_uri("s3://bucket").unwrap(), ("bucket".to_string(), "".to_string()));
    assert_eq!(parse_s3_uri("gs://b/p").unwrap_err(), "expected s3:// URI");
    let l = S3Location::from_s3_uri("s3://b//wh/", "orders").unwrap();
    assert_eq!(l.prefix, "wh");
    assert_eq!(l.metadata_key(), "wh/orders/metadata/snapshots.json");
    assert_eq!(l.data_key("data/snap-1.parquet"), "wh/orders/data/snap-1.parquet");
    let bare = S3Location::from_s3_uri("s3://b", "t").unwrap();
    assert_eq!(bare.metadata_key(), "t/metadata/snapshots.json");
}

#[test]
fn build_source_and_sink_by_kind() {
    let mut c = ReconConfig::default_template();
    assert!(matches!(build_source(&c), Ok(DynSource::Memory(m)) if m.topic == "orders"));
    assert!(matches!(build_sink(&c, None), Ok(DynSink::Iceberg(s)) if s.config.root == ".veridata/warehouse"));
    c.source.kind = "msk".into();
    assert_eq!(build_source(&c).err().unwrap(), "source.bootstrap_servers required for msk");
    c.source.bootstrap_servers = Some("b:9098".into());
    assert!(matches!(build_source(&c), Ok(DynSource::Msk(m)) if m.region == "us-east-1"));
    c.source.kind = "pubsub".into();
    assert_eq!(build_source(&c).err().unwrap(), "source.project required for pubsub");
    c.source.kind = "nats".into();
    assert_eq!(
        build_source(&c).err().unwrap(),
        "unknown source type 'nats' (enable --features cloud for msk/pubsub/eventhubs)"
    );
    c.sink.kind = "bigquery".into();
    assert_eq!(build_sink(&c, None).err().unwrap(), "source.project or GCP_PROJECT required for bigquery");
    c.sink.dataset = Some("ds".into());
    assert!(matches!(build_sink(&c, Some("envproj")), Ok(DynSink::BigQuery(b)) if b.project == "envproj" && b.dataset == "ds"));
    c.sink.kind = "databricks".into();
    c.sink.warehouse_uri = Some("s3://lake/delta/".into());
    assert!(matches!(
        build_sink(&c, None),
        Ok(DynSink::Databricks { location, catalog, schema, table })
            if location.bucket == "lake" && location.prefix == "delta" && catalog == "main"
                && schema == "default" && table == "delta"
    ));
    c.sink.kind = "iceberg_s3".into();
    c.sink.warehouse_uri = Some("file:///x".into());
    assert_eq!(build_sink(&c, None).err().unwrap(), "expected s3:// URI");
}

#[test]
fn sha256_hex_known_vector() {
    assert_eq!(
        veridata::kms::sha256_hex(b"abc"),
        "ba7816bf8f01cfea414140de5dae2223b00361a396177a9cb410ff61f20015ad"
    );
    assert_eq!(veridata::kms::sha256(b"abc").len(), 32);
}

#[test]
fn pem_ed25519_key_extracted() {
    let mut der = vec![0x30, 0x2a, 0x30, 0x05, 0x06, 0x03, 0x2b, 0x65, 0x70, 0x03, 0x21, 0x00];
    let key: Vec<u8> = (1u8..=32).collect();
    der.extend_from_slice(&key);
    let body = base64::engine::general_purpose::STANDARD.encode(&der);
    let pem = format!(
        "-----BEGIN PUBLIC KEY-----\r\n{}\r\n{}\n-----END PUBLIC KEY-----\n",
        &body[..20],
        &body[20..]
    );
    assert_eq!(
        veridata::kms::pem_ed25519_to_b64(&pem).unwrap(),
        base64::engine::general_purpose::STANDARD.encode(&key)
    );
    let short = "-----BEGIN PUBLIC KEY-----\nAAEC\n-----END PUBLIC KEY-----";
    assert_eq!(veridata::kms::pem_ed25519_to_b64(short).unwrap_err(), "gcp pem: expected Ed25519 raw key");
    let bad = veridata::kms::pem_ed25519_to_b64("not base64!").unwrap_err();
    assert!(bad.starts_with("gcp pem decode: "));
}

#[test]
fn positions_as_json_objects() {
    assert_eq!(encode_kafka_pos(0, 5), br#"{"offset":5,"partition":0}"#.to_vec());
    let p = iceberg_pos(3, 1, 7);
    assert_eq!(p.kind, veridata::model::PositionKind::IcebergRow);
    assert_eq!(p.value, br#"{"file_index":1,"row_index":7,"snapshot_id":3}"#.to_vec());
}

#[test]
fn proof_store_names_and_latest() {
    assert_eq!(proof_file_name("abc"), "abc.vrp.json");
    assert_eq!(object_key("", "abc.vrp.json"), "abc.vrp.json");
    assert_eq!(object_key("proofs", "abc.vrp.json"), "proofs/abc.vrp.json");
    let listing = vec![
        ("p/a.vrp.json".to_string(), 10u64),
        ("p/notes.txt".to_string(), 99u64),
        ("p/b.vrp.json".to_string(), 20u64),
        ("p/c.vrp.json".to_string(), 20u64),
    ];
    assert_eq!(latest_object(&listing), Some(2));
    assert_eq!(latest_object(&listing[..2]), Some(0));
    assert_eq!(latest_object(&listing[1..2]), None);
}

#[test]
fn iceberg_selected_columns() {
    let content: Vec<String> = vec!["status".into(), "amount".into(), "order_id".into(), "amount".into()];
    let identity: Vec<String> = vec!["order_id".into(), "line_id".into()];
    assert_eq!(
        veridata::connectors::selected_columns(&content, &identity),
        vec!["amount", "line_id", "order_id", "status"]
    );
    assert!(veridata::connectors::selected_columns(&[], &[]).is_empty());
}

#[test]
fn boundaries_as_json() {
    let mut c = ReconConfig::default_template();
    let k = kafka_boundary(&c);
    assert_eq!(k.mode, BoundaryMode::OffsetRange);
    assert_eq!(k.value, br#"{"partitions":[{"end":4,"id":0,"start":0}]}"#.to_vec());
    let s = sink_boundary(&c);
    assert_eq!(s.mode, BoundaryMode::BatchId);
    assert_eq!(s.value, br#"{"snapshot_from":1,"snapshot_to":1}"#.to_vec());
    c.sink.kind = "bigquery".into();
    assert_eq!(sink_boundary(&c).value, br#"{"sql_filter":null}"#.to_vec());
    c.sink.boundary.sql_filter = Some("a > 1".into());
    assert_eq!(sink_boundary(&c).value, br#"{"sql_filter":"a > 1"}"#.to_vec());
}

#[test]
fn kafka_source_gets_its_own_group() {
    let k = KafkaSourceConnector::new("localhost:9092", "orders");
    assert_eq!(k.bootstrap_servers, "localhost:9092");
    assert_eq!(k.topic, "orders");
    let digits = k.group_id.strip_prefix("veridata-").expect("group prefix");
    assert!(!digits.is_empty());
    assert!(digits.chars().all(|c| c.is_ascii_digit()));
}

#[test]
fn snapshot_columns_checks_each_column_in_order() {
    let row = |o: &str, l: &str, a: &str, s: &str| {
        let mut r = Record::new();
        r.insert("order_id".into(), CanonValue::String(o.into()));
        r.insert("line_id".into(), CanonValue::String(l.into()));
        r.insert("amount".into(), CanonValue::String(a.into()));
        r.insert("status".into(), CanonValue::String(s.into()));
        r
    };
    let rows = vec![row("1", "1", "dec:1.0", "ok"), row("2", "1", "dec:2.0", "shipped")];
    let cols = snapshot_columns(&rows).unwrap();
    assert_eq!(cols.len(), 4);
    assert_eq!(cols[0], vec!["1".to_string(), "2".to_string()]);
    assert_eq!(cols[3], vec!["ok".to_string(), "shipped".to_string()]);
    let mut bad = rows.clone();
    bad[1].insert("amount".into(), CanonValue::Null);
    bad[0].insert("status".into(), CanonValue::Bool(true));
    assert_eq!(snapshot_columns(&bad).unwrap_err(), "missing amount");
    assert!(snapshot_columns(&[]).unwrap().iter().all(|c| c.is_empty()));
}

#[test]
fn signer_needs_a_key_id_for_cloud_services() {
    assert_eq!(signer_key_id(&KmsProviderConfig::File, None), Ok(None));
    assert_eq!(signer_key_id(&KmsProviderConfig::File, Some("k1")), Ok(Some("k1".to_string())));
    assert_eq!(signer_key_id(&KmsProviderConfig::Aws, Some("arn")), Ok(Some("arn".to_string())));
    assert_eq!(
        signer_key_id(&KmsProviderConfig::Aws, None),
        Err("aws kms requires crypto.kms_key_id (key ARN)".to_string())
    );
    assert_eq!(
        signer_key_id(&KmsProviderConfig::Gcp, None),
        Err("gcp kms requires crypto.kms_key_id (resource name)".to_string())
    );
    assert_eq!(
        signer_key_id(&KmsProviderConfig::Azure, None),
        Err("azure key vault requires crypto.kms_key_id (key name)".to_string())
    );
}
