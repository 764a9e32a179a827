use veridata::canon::{
    canon_content, canon_fields_kind, canon_identity, canonical_decimal, decimal_cut_panics,
    encode_value, encode_value_kind, normalize_timestamp, u32_be, OutcomeKind,
};
use veridata::error::CoreError;
use veridata::hash::{hasher_for, HashAlgorithm, Hasher, Sha256Hasher};
use veridata::identity::{identity_field_names, identity_fields, IdentityRule};
use veridata::merkle::{
    commutative_root, merkle_leaf, merkle_proof, merkle_root, verify_merkle_proof,
    verify_merkle_proof_with_index,
};
use veridata::model::{
    CanonSpec, DuplicatePolicy, Fingerprint, Policy, PositionKind, Tolerances, Verdict,
};
use veridata::policy_util::{effective_content_fields, late_arrival_window_secs};
use veridata::recon::{
    build_fingerprint, build_fingerprint_checked, derive_verdict, fingerprint_rows, kafka_pos,
    reconcile, record_canons_kind,
};
use veridata::record::{CanonValue, Record};

const TEST_SALT: [u8; 32] = [0xAB; 32];

fn default_policy() -> Policy {
    Policy {
        identity_rule: "composite:[order_id,line_id]".into(),
        canon: CanonSpec::default(),
        hash_algorithm: "sha256".into(),
        content_fields: content_fields(),
        exclude_fields: vec!["_meta".into()],
        tolerances: Tolerances::default(),
        late_arrival_window: "900s".into(),
    }
}

fn content_fields() -> Vec<String> {
    vec![
        "order_id".into(),
        "line_id".into(),
        "amount".into(),
        "status".into(),
    ]
}

fn spec() -> CanonSpec {
    CanonSpec::default()
}

fn rec(fields: &[(&str, CanonValue)]) -> Record {
    let mut r = Record::new();
    for (k, v) in fields {
        r.insert(k.to_string(), v.clone());
    }
    r
}

fn sample_records(n: usize) -> Vec<Record> {
    (0..n)
        .map(|i| {
            let mut rec = Record::new();
            rec.insert("order_id".into(), CanonValue::String(format!("{}", 1000 + i)));
            rec.insert("line_id".into(), CanonValue::String("1".into()));
            rec.insert(
                "amount".into(),
                CanonValue::String(format!("dec:{}", 10.5 + i as f64)),
            );
            rec.insert("status".into(), CanonValue::String("shipped".into()));
            rec.insert("_meta".into(), CanonValue::String(format!("ignore-{i}")));
            rec
        })
        .collect()
}

fn fingerprints_from_records(records: &[Record], policy: &Policy, offset_start: u64) -> Vec<Fingerprint> {
    let fields = effective_content_fields(&policy.content_fields, &policy.exclude_fields);
    records
        .iter()
        .enumerate()
        .map(|(i, rec)| {
            build_fingerprint(rec, &fields, &TEST_SALT, kafka_pos(offset_start + i as u64), policy)
                .expect("fingerprint")
        })
        .collect()
}

fn inject_drop(source: &[Fingerprint], drop_index: usize) -> Vec<Fingerprint> {
    source
        .iter()
        .enumerate()
        .filter(|(i, _)| *i != drop_index)
        .map(|(_, f)| f.clone())
        .collect()
}

fn inject_dup(sink: &[Fingerprint], dup_index: usize) -> Vec<Fingerprint> {
    let mut out = sink.to_vec();
    out.push(out[dup_index].clone());
    out
}

fn inject_mutation(
    records: &[Record],
    mut_index: usize,
    field: &str,
    new_value: CanonValue,
    policy: &Policy,
) -> Vec<Fingerprint> {
    let mut recs: Vec<Record> = records.to_vec();
    recs[mut_index].insert(field.to_string(), new_value);
    fingerprints_from_records(&recs, policy, 0)
}

fn sample_fps(n: usize) -> Vec<Fingerprint> {
    let policy = default_policy();
    let fields = content_fields();
    (0..n)
        .map(|i| {
            let mut rec = Record::new();
            rec.insert("order_id".into(), CanonValue::String(format!("{}", 1000 + i)));
            rec.insert("line_id".into(), CanonValue::String("1".into()));
            rec.insert(
                "amount".into(),
                CanonValue::String(format!("dec:{}", 10.5 + i as f64)),
            );
            rec.insert("status".into(), CanonValue::String("shipped".into()));
            build_fingerprint(&rec, &fields, &TEST_SALT, kafka_pos(i as u64), &policy).unwrap()
        })
        .collect()
}

// ---------------------------------------------------------------- canon

#[test]
fn ac_a3_1_field_order_independence_for_content() {
    let fields: Vec<String> = vec![
        "amount".into(),
        "line_id".into(),
        "order_id".into(),
        "status".into(),
    ];
    let r1 = rec(&[
        ("order_id", CanonValue::String("1".into())),
        ("line_id", CanonValue::String("2".into())),
        ("amount", CanonValue::String("dec:1.5".into())),
        ("status", CanonValue::String("ok".into())),
    ]);
    let mut fields2 = fields.clone();
    fields2.reverse();
    let b1 = canon_content(&r1, &fields, &spec()).unwrap();
    let b2 = canon_content(&r1, &fields2, &spec()).unwrap();
    assert_eq!(b1, b2);
}

#[test]
fn ac_a3_2_timezone_utc_equality() {
    let r1 = rec(&[("t", CanonValue::Timestamp("2026-01-01T12:00:00+05:00".into()))]);
    let r2 = rec(&[("t", CanonValue::Timestamp("2026-01-01T07:00:00Z".into()))]);
    let fields: Vec<String> = vec!["t".into()];
    assert_eq!(
        canon_content(&r1, &fields, &spec()).unwrap(),
        canon_content(&r2, &fields, &spec()).unwrap()
    );
}

#[test]
fn ac_a3_3_decimal_scale_equality() {
    let r1 = rec(&[("d", CanonValue::String("dec:1.50".into()))]);
    let r2 = rec(&[("d", CanonValue::String("dec:1.5".into()))]);
    let fields: Vec<String> = vec!["d".into()];
    assert_eq!(
        canon_content(&r1, &fields, &spec()).unwrap(),
        canon_content(&r2, &fields, &spec()).unwrap()
    );
}

#[test]
fn ac_a3_4_null_not_empty_string() {
    let r_null = rec(&[("x", CanonValue::Null)]);
    let r_empty = rec(&[("x", CanonValue::String("".into()))]);
    let fields: Vec<String> = vec!["x".into()];
    assert_ne!(
        canon_content(&r_null, &fields, &spec()).unwrap(),
        canon_content(&r_empty, &fields, &spec()).unwrap()
    );
}

#[test]
fn ac_a3_5_canon_version_recorded() {
    let mut s = spec();
    s.version = 99;
    let r = rec(&[("x", CanonValue::String("a".into()))]);
    let err = canon_content(&r, &["x".into()], &s).unwrap_err();
    assert!(matches!(err, CoreError::UnsupportedCanonVersion(99)));
}

#[test]
fn ac_a1_2_composite_order_differs_in_canon() {
    let r = rec(&[
        ("order_id", CanonValue::String("1".into())),
        ("line_id", CanonValue::String("2".into())),
    ]);
    let rule_a = identity_fields("composite:[order_id,line_id]").unwrap();
    let rule_b = identity_fields("composite:[line_id,order_id]").unwrap();
    assert_ne!(
        canon_identity(&r, &rule_a, &spec()).unwrap(),
        canon_identity(&r, &rule_b, &spec()).unwrap()
    );
}

// ---------------------------------------------------------------- hash

#[test]
fn ac_a8_1_blake3_selectable() {
    let h = hasher_for("blake3").unwrap();
    assert_eq!(h.algorithm(), HashAlgorithm::Blake3);
    let digest = h.hash(b"test");
    assert_eq!(digest.len(), 32);
}

#[test]
fn ac_a8_2_unknown_algo_fails() {
    assert!(matches!(
        hasher_for("md5"),
        Err(CoreError::UnknownHashAlgorithm(_))
    ));
}

#[test]
fn ac_b5_1_equal_matched_roots() {
    let h = Sha256Hasher;
    let fp1 = h.hash(b"fp1");
    let fp2 = h.hash(b"fp2");
    let leaves = vec![merkle_leaf(&h, &fp1), merkle_leaf(&h, &fp2)];
    let r1 = merkle_root(&h, leaves.clone());
    let r2 = merkle_root(&h, leaves);
    assert_eq!(r1, r2);
}

#[test]
fn ac_b5_2_inclusion_proof_verifies() {
    let h = Sha256Hasher;
    let fp = h.hash(b"target");
    let leaf = merkle_leaf(&h, &fp);
    let other = merkle_leaf(&h, &h.hash(b"other"));
    let mut leaves = vec![leaf, other];
    let root = merkle_root(&h, leaves.clone());
    leaves.sort();
    let idx = leaves.iter().position(|l| l == &leaf).unwrap();
    let proof = merkle_proof(&h, &leaves, &leaf).unwrap();
    assert!(verify_merkle_proof_with_index(&h, &root, &leaf, &proof, idx));
    assert!(verify_merkle_proof(&h, &root, &leaf, &proof, leaves.len()));
}

#[test]
fn ac_b6_1_commutative_root_order_independent() {
    let h = Sha256Hasher;
    let fp1 = h.hash(b"a");
    let fp2 = h.hash(b"b");
    let fp3 = h.hash(b"c");
    let r1 = commutative_root(&h, vec![fp1, fp2, fp3]);
    let r2 = commutative_root(&h, vec![fp3, fp1, fp2]);
    assert_eq!(r1, r2);
}

#[test]
fn ac_b5_3_tampered_path_fails() {
    let h = Sha256Hasher;
    let fp = h.hash(b"target");
    let leaf = merkle_leaf(&h, &fp);
    let other = merkle_leaf(&h, &h.hash(b"other"));
    let mut leaves = vec![leaf, other];
    let root = merkle_root(&h, leaves.clone());
    leaves.sort();
    let idx = leaves.iter().position(|l| l == &leaf).unwrap();
    let mut proof = merkle_proof(&h, &leaves, &leaf).unwrap();
    proof[0] = h.hash(b"tampered");
    assert!(!verify_merkle_proof_with_index(&h, &root, &leaf, &proof, idx));
    assert!(!verify_merkle_proof(&h, &root, &leaf, &proof, leaves.len()));
}

// ---------------------------------------------------------------- identity

#[test]
fn ac_a1_1_single_key() {
    let rule = identity_fields("field:order_id").unwrap();
    assert_eq!(rule, IdentityRule::Field("order_id".into()));
}

#[test]
fn ac_a1_2_composite_order_matters() {
    let a = identity_fields("composite:[order_id,line_id]").unwrap();
    let b = identity_fields("composite:[line_id,order_id]").unwrap();
    assert_ne!(a, b);
}

#[test]
fn ac_a1_3_missing_field_fails_loudly() {
    let mut rec = Record::new();
    rec.insert("order_id".into(), CanonValue::String("1".into()));
    let rule = identity_fields("composite:[order_id,line_id]").unwrap();
    let err = canon_identity(&rec, &rule, &CanonSpec::default()).unwrap_err();
    assert!(matches!(err, CoreError::MissingIdentityField(_)));
}

#[test]
fn ac_a1_4_null_per_policy() {
    let mut rec = Record::new();
    rec.insert("order_id".into(), CanonValue::Null);
    let rule = identity_fields("field:order_id").unwrap();
    let bytes = canon_identity(&rec, &rule, &CanonSpec::default()).unwrap();
    assert!(!bytes.is_empty());
}

// ---------------------------------------------------------------- policy_util

#[test]
fn ac_a6_1_exclude_fields_removed() {
    let fields: Vec<String> = vec!["a".into(), "b".into(), "c".into()];
    let out = effective_content_fields(&fields, &["b".into()]);
    assert_eq!(out, vec!["a", "c"]);
}

#[test]
fn ac_b8_1_late_arrival_window_parses() {
    assert_eq!(late_arrival_window_secs("900s"), Some(900));
    assert_eq!(late_arrival_window_secs("120"), Some(120));
}

// ---------------------------------------------------------------- recon

#[test]
fn ac_b1_1_identical_sets_pass() {
    let src = sample_fps(3);
    let snk = src.clone();
    let out = reconcile(&src, &snk, &default_policy(), &Sha256Hasher).unwrap();
    assert_eq!(out.result.verdict, Verdict::Pass);
    assert_eq!(out.result.matched.count, 3);
}

#[test]
fn ac_b1_2_equal_multiplicity_not_dup() {
    let src = sample_fps(2);
    let snk = src.clone();
    let out = reconcile(&src, &snk, &default_policy(), &Sha256Hasher).unwrap();
    assert!(out.result.duplicated.is_empty());
}

#[test]
fn ac_b2_1_missing_listed_with_id_and_pos() {
    let src = sample_fps(3);
    let snk = sample_fps(2);
    let out = reconcile(&src, &snk, &default_policy(), &Sha256Hasher).unwrap();
    assert_eq!(out.result.missing.len(), 1);
    assert_eq!(out.result.missing[0].id_hash, src[2].id_hash);
    assert_eq!(out.result.missing[0].source_pos, src[2].pos);
}

#[test]
fn ac_b2_2_n_drops_count() {
    let src = sample_fps(5);
    let snk = sample_fps(2);
    let out = reconcile(&src, &snk, &default_policy(), &Sha256Hasher).unwrap();
    assert_eq!(out.result.missing.len(), 3);
}

#[test]
fn ac_b3_1_dup_multiplicities() {
    let src = sample_fps(3);
    let mut snk = sample_fps(3);
    snk.push(snk[2].clone());
    let out = reconcile(&src, &snk, &default_policy(), &Sha256Hasher).unwrap();
    assert_eq!(out.result.duplicated.len(), 1);
    assert_eq!(out.result.duplicated[0].source_multiplicity, 1);
    assert_eq!(out.result.duplicated[0].sink_multiplicity, 2);
}

fn mutated_record_1002() -> Record {
    let mut rec = Record::new();
    rec.insert("order_id".into(), CanonValue::String("1002".into()));
    rec.insert("line_id".into(), CanonValue::String("1".into()));
    rec.insert("amount".into(), CanonValue::String("dec:999.99".into()));
    rec.insert("status".into(), CanonValue::String("shipped".into()));
    rec
}

#[test]
fn ac_b4_1_mutation_evidence() {
    let src = sample_fps(3);
    let mut snk = sample_fps(3);
    let policy = default_policy();
    let fields = content_fields();
    let rec = mutated_record_1002();
    snk[2] = build_fingerprint(&rec, &fields, &TEST_SALT, kafka_pos(2), &policy).unwrap();
    let out = reconcile(&src, &snk, &policy, &Sha256Hasher).unwrap();
    assert_eq!(out.result.mutated.len(), 1);
    assert_eq!(out.result.mutated[0].id_hash, src[2].id_hash);
}

#[test]
fn ac_b11_1_one_drop_fails() {
    let src = sample_fps(2);
    let snk = sample_fps(1);
    let out = reconcile(&src, &snk, &default_policy(), &Sha256Hasher).unwrap();
    assert_eq!(out.result.verdict, Verdict::Fail);
}

#[test]
fn ac_b11_2_benign_dup_allowed_passes() {
    let src = sample_fps(2);
    let mut snk = sample_fps(2);
    snk.push(snk[0].clone());
    let mut policy = default_policy();
    policy.tolerances.duplicates = DuplicatePolicy::AllowIfSinkIdempotent;
    let out = reconcile(&src, &snk, &policy, &Sha256Hasher).unwrap();
    assert_eq!(out.result.verdict, Verdict::Pass);
    assert!(!out.result.duplicated.is_empty());
}

#[test]
fn ac_b2_3_mutation_and_drop_independent_ids() {
    let policy = default_policy();
    let fields = content_fields();
    let src = sample_fps(3);
    let mut snk = sample_fps(3);
    let rec = mutated_record_1002();
    snk[2] = build_fingerprint(&rec, &fields, &TEST_SALT, kafka_pos(2), &policy).unwrap();
    snk.remove(0);
    let out = reconcile(&src, &snk, &policy, &Sha256Hasher).unwrap();
    assert_eq!(out.result.mutated.len(), 1);
    assert_eq!(out.result.missing.len(), 1);
    assert_eq!(out.result.missing[0].id_hash, src[0].id_hash);
}

#[test]
fn ac_b11_3_unverified_never_pass() {
    let v = derive_verdict(
        0,
        0,
        0,
        Some("incomparable boundary".into()),
        &Tolerances::default(),
    );
    assert_eq!(v, Verdict::Unverified);
}

// ---------------------------------------------------------------- fingerprints

#[test]
fn ac_a2_3_only_selected_fields_matter() {
    let policy = default_policy();
    let fields: Vec<String> = vec!["order_id".into(), "status".into()];
    let mut r1 = Record::new();
    r1.insert("order_id".into(), CanonValue::String("1".into()));
    r1.insert("line_id".into(), CanonValue::String("99".into()));
    r1.insert("status".into(), CanonValue::String("ok".into()));
    let mut r2 = r1.clone();
    r2.insert("line_id".into(), CanonValue::String("different".into()));
    let f1 = build_fingerprint(&r1, &fields, &TEST_SALT, kafka_pos(0), &policy).unwrap();
    let f2 = build_fingerprint(&r2, &fields, &TEST_SALT, kafka_pos(0), &policy).unwrap();
    assert_eq!(f1.content_hash, f2.content_hash);
}

fn business_record() -> Record {
    let mut r1 = Record::new();
    r1.insert("order_id".into(), CanonValue::String("1".into()));
    r1.insert("line_id".into(), CanonValue::String("1".into()));
    r1.insert("amount".into(), CanonValue::String("dec:1.0".into()));
    r1.insert("status".into(), CanonValue::String("ok".into()));
    r1
}

#[test]
fn ac_a2_1_metadata_excluded_same_hash() {
    let policy = default_policy();
    let fields = content_fields();
    let r1 = business_record();
    let mut r2 = r1.clone();
    r2.insert("_meta".into(), CanonValue::String("changed".into()));
    let f1 = build_fingerprint(&r1, &fields, &TEST_SALT, kafka_pos(0), &policy).unwrap();
    let f2 = build_fingerprint(&r2, &fields, &TEST_SALT, kafka_pos(0), &policy).unwrap();
    assert_eq!(f1.content_hash, f2.content_hash);
}

#[test]
fn ac_a2_2_business_field_change_different_hash() {
    let policy = default_policy();
    let fields = content_fields();
    let r1 = business_record();
    let mut r2 = r1.clone();
    r2.insert("amount".into(), CanonValue::String("dec:2.0".into()));
    let f1 = build_fingerprint(&r1, &fields, &TEST_SALT, kafka_pos(0), &policy).unwrap();
    let f2 = build_fingerprint(&r2, &fields, &TEST_SALT, kafka_pos(0), &policy).unwrap();
    assert_ne!(f1.content_hash, f2.content_hash);
}

#[test]
fn ac_a5_1_no_raw_in_hashes() {
    let recs = sample_records(1);
    let fps = fingerprints_from_records(&recs, &default_policy(), 0);
    let hex_id = hex::encode(fps[0].id_hash);
    assert!(!hex_id.contains("1000"));
}

#[test]
fn ac_a5_2_different_salts_uncorrelated() {
    let policy = default_policy();
    let fields = content_fields();
    let recs = sample_records(1);
    let f1 = build_fingerprint(&recs[0], &fields, &[1u8; 32], kafka_pos(0), &policy).unwrap();
    let f2 = build_fingerprint(&recs[0], &fields, &[2u8; 32], kafka_pos(0), &policy).unwrap();
    assert_ne!(f1.id_hash, f2.id_hash);
}

#[test]
fn fault_matrix_drop_dup_mutation() {
    let policy = default_policy();
    let recs = sample_records(5);
    let src = fingerprints_from_records(&recs, &policy, 0);

    let drop_snk = inject_drop(&src, 4);
    let drop_out = reconcile(&src, &drop_snk, &policy, &Sha256Hasher).unwrap();
    assert_eq!(drop_out.result.verdict, Verdict::Fail);

    let dup_snk = inject_dup(&src, 2);
    let dup_out = reconcile(&src, &dup_snk, &policy, &Sha256Hasher).unwrap();
    assert_eq!(dup_out.result.verdict, Verdict::Fail);

    let mut_snk = inject_mutation(
        &recs,
        2,
        "amount",
        CanonValue::String("dec:999.99".into()),
        &policy,
    );
    let mut_out = reconcile(&src, &mut_snk, &policy, &Sha256Hasher).unwrap();
    assert_eq!(mut_out.result.verdict, Verdict::Fail);

    let clean = reconcile(&src, &src, &policy, &Sha256Hasher).unwrap();
    assert_eq!(clean.result.verdict, Verdict::Pass);
}

#[test]
fn ac_a5_2_different_proofs_get_different_salts() {
    let a = veridata::salt::generate_proof_salt().expect("OS RNG");
    let b = veridata::salt::generate_proof_salt().expect("OS RNG");
    assert_ne!(a, b);
}

// ---------------------------------------------------------------- own: canon

#[test]
fn u32_be_is_big_endian() {
    assert_eq!(u32_be(0x0102_0304), [1, 2, 3, 4]);
    assert_eq!(u32_be(5), [0, 0, 0, 5]);
}

#[test]
fn canonical_decimal_pads_and_cuts() {
    assert_eq!(canonical_decimal("1.5", 6).unwrap(), "1.500000");
    assert_eq!(canonical_decimal(" 12 ", 2).unwrap(), "12.00");
    assert_eq!(canonical_decimal("3.14159265", 4).unwrap(), "3.1415");
    assert_eq!(canonical_decimal("-7.25", 0).unwrap(), "-7");
    assert_eq!(canonical_decimal("1.é", 6).unwrap(), "1.é0000");
}

#[test]
fn canonical_decimal_rejects_bad_literals() {
    assert!(matches!(canonical_decimal("   ", 6), Err(CoreError::InvalidDecimal(s)) if s.is_empty()));
    assert!(matches!(canonical_decimal(".5", 6), Err(CoreError::InvalidDecimal(s)) if s == ".5"));
    assert!(matches!(canonical_decimal("1a.5", 6), Err(CoreError::InvalidDecimal(s)) if s == "1a.5"));
}

#[test]
fn encode_value_exact_bytes() {
    let s = spec();
    let mut out = Vec::new();
    encode_value(&mut out, &CanonValue::Null, &s).unwrap();
    assert_eq!(out, vec![0xA0]);
    let mut out = Vec::new();
    encode_value(&mut out, &CanonValue::Bool(true), &s).unwrap();
    assert_eq!(out, vec![0xA1, 0x01]);
    let mut out = Vec::new();
    encode_value(&mut out, &CanonValue::String("ab".into()), &s).unwrap();
    assert_eq!(out, vec![0xA2, 0, 0, 0, 2, b'a', b'b']);
    let mut out = Vec::new();
    encode_value(&mut out, &CanonValue::String("ts:x".into()), &s).unwrap();
    assert_eq!(out, vec![0xA4, 0, 0, 0, 1, b'x']);
    let mut out = Vec::new();
    encode_value(&mut out, &CanonValue::Decimal("2".into()), &s).unwrap();
    assert_eq!(out, b"\xA3\x00\x00\x00\x082.000000".to_vec());
}

#[test]
fn encode_string_normalizes_to_nfc() {
    let s = spec();
    let mut composed = Vec::new();
    encode_value(&mut composed, &CanonValue::String("\u{e9}".into()), &s).unwrap();
    let mut decomposed = Vec::new();
    encode_value(&mut decomposed, &CanonValue::String("e\u{301}".into()), &s).unwrap();
    assert_eq!(composed, decomposed);
    assert_eq!(composed, vec![0xA2, 0, 0, 0, 2, 0xC3, 0xA9]);
}

#[test]
fn timestamps_normalize_to_utc_micros() {
    let s = spec();
    assert_eq!(
        normalize_timestamp("2026-01-01T12:00:00+05:00", &s).unwrap(),
        "2026-01-01T07:00:00.000000Z"
    );
    assert_eq!(
        normalize_timestamp("ts:2026-01-01T07:00:00.5Z", &s).unwrap(),
        "2026-01-01T07:00:00.500000Z"
    );
    assert!(matches!(
        normalize_timestamp("yesterday", &s),
        Err(CoreError::Other(m)) if m.starts_with("invalid timestamp: ")
    ));
    let mut other = spec();
    other.timestamp_precision = "millis".into();
    assert!(matches!(
        normalize_timestamp("2026-01-01T07:00:00Z", &other),
        Err(CoreError::Other(m)) if m == "unsupported timestamp_precision: millis"
    ));
}

#[test]
fn arrays_in_order_or_as_sets() {
    let items = CanonValue::Array(vec![CanonValue::Bool(true), CanonValue::Null]);
    let swapped = CanonValue::Array(vec![CanonValue::Null, CanonValue::Bool(true)]);
    let mut s = spec();
    let mut a = Vec::new();
    encode_value(&mut a, &items, &s).unwrap();
    assert_eq!(a, vec![0xA5, 0, 0, 0, 2, 0xA1, 1, 0xA0]);
    let mut b = Vec::new();
    encode_value(&mut b, &swapped, &s).unwrap();
    assert_ne!(a, b);
    s.array_as_set = true;
    let mut a = Vec::new();
    encode_value(&mut a, &items, &s).unwrap();
    let mut b = Vec::new();
    encode_value(&mut b, &swapped, &s).unwrap();
    assert_eq!(a, b);
    assert_eq!(a, vec![0xA5, 0, 0, 0, 2, 0xA0, 0xA1, 1]);
}

#[test]
fn content_fields_sorted_and_headed() {
    let r = rec(&[
        ("b", CanonValue::Null),
        ("a", CanonValue::Bool(false)),
    ]);
    let fields: Vec<String> = vec!["b".into(), "a".into()];
    let bytes = canon_content(&r, &fields, &spec()).unwrap();
    assert_eq!(
        bytes,
        vec![0xF0, 0, 0, 0, 1, b'a', 0xA1, 0, 0xF0, 0, 0, 0, 1, b'b', 0xA0]
    );
    let missing = canon_content(&r, &["c".into()], &spec()).unwrap_err();
    assert!(matches!(missing, CoreError::MissingIdentityField(n) if n == "c"));
}

#[test]
fn identity_field_names_in_rule_order() {
    let rule = identity_fields("composite:[ b , a ]").unwrap();
    assert_eq!(identity_field_names(&rule), &["b".to_string(), "a".to_string()]);
    assert!(matches!(identity_fields("composite:[a,]"), Err(CoreError::InvalidIdentityRule(_))));
}

#[test]
fn kafka_pos_is_big_endian_offset() {
    let p = kafka_pos(0x0102);
    assert_eq!(p.kind, PositionKind::KafkaOffset);
    assert_eq!(p.value, vec![0, 0, 0, 0, 0, 0, 1, 2]);
}

#[test]
fn build_fingerprint_errors() {
    let mut policy = default_policy();
    policy.hash_algorithm = "md5".into();
    let r = business_record();
    let e = build_fingerprint(&r, &content_fields(), &TEST_SALT, kafka_pos(0), &policy).unwrap_err();
    assert!(matches!(e, CoreError::UnknownHashAlgorithm(a) if a == "md5"));
    let mut policy = default_policy();
    policy.identity_rule = "bogus".into();
    let e = build_fingerprint(&r, &content_fields(), &TEST_SALT, kafka_pos(0), &policy).unwrap_err();
    assert!(matches!(e, CoreError::InvalidIdentityRule(a) if a == "bogus"));
}

#[test]
fn blake3_and_sha256_fingerprints_differ() {
    let r = business_record();
    let mut policy = default_policy();
    let a = build_fingerprint(&r, &content_fields(), &TEST_SALT, kafka_pos(0), &policy).unwrap();
    policy.hash_algorithm = "blake3".into();
    let b = build_fingerprint(&r, &content_fields(), &TEST_SALT, kafka_pos(0), &policy).unwrap();
    assert_ne!(a.fp, b.fp);
    assert_ne!(a.id_hash, [0u8; 32]);
}

#[test]
fn decimal_cut_inside_a_character_is_detected() {
    assert!(decimal_cut_panics("1.\u{e9}", 1));
    assert!(!decimal_cut_panics("1.\u{e9}", 2));
    assert!(!decimal_cut_panics("1.5", 0));
    assert!(!decimal_cut_panics("1a.\u{e9}", 1));
    assert!(!decimal_cut_panics("   ", 1));
}

#[test]
fn encode_value_kind_tells_the_outcomes_apart() {
    let mut s = spec();
    s.decimal_scale = 1;
    assert_eq!(encode_value_kind(&CanonValue::Decimal("2.5".into()), &s), OutcomeKind::Done);
    assert_eq!(encode_value_kind(&CanonValue::Decimal("x".into()), &s), OutcomeKind::Fails);
    assert_eq!(encode_value_kind(&CanonValue::Decimal("1.\u{e9}".into()), &s), OutcomeKind::Panics);
    assert_eq!(
        encode_value_kind(&CanonValue::String("dec:1.\u{e9}".into()), &s),
        OutcomeKind::Panics
    );
    assert_eq!(
        encode_value_kind(&CanonValue::Timestamp("not a time".into()), &s),
        OutcomeKind::Fails
    );
    let arr = CanonValue::Array(vec![CanonValue::Bool(true), CanonValue::Decimal("1.\u{e9}".into())]);
    assert_eq!(encode_value_kind(&arr, &s), OutcomeKind::Panics);
    let r = rec(&[("a", CanonValue::Bool(true))]);
    assert_eq!(canon_fields_kind(&r, &["a".to_string()], &s), OutcomeKind::Done);
    assert_eq!(canon_fields_kind(&r, &["b".to_string()], &s), OutcomeKind::Fails);
}

#[test]
fn checked_fingerprint_refuses_a_cut_decimal() {
    let mut policy = default_policy();
    policy.canon.decimal_scale = 1;
    let mut r = business_record();
    r.insert("amount".into(), CanonValue::Decimal("1.\u{e9}".into()));
    assert_eq!(record_canons_kind(&r, &content_fields(), &policy), OutcomeKind::Panics);
    assert!(build_fingerprint_checked(&r, &content_fields(), &TEST_SALT, kafka_pos(0), &policy).is_none());
}

#[test]
fn checked_fingerprint_agrees_with_build_fingerprint() {
    let policy = default_policy();
    let r = business_record();
    assert_eq!(record_canons_kind(&r, &content_fields(), &policy), OutcomeKind::Done);
    let a = build_fingerprint(&r, &content_fields(), &TEST_SALT, kafka_pos(3), &policy).unwrap();
    let b = build_fingerprint_checked(&r, &content_fields(), &TEST_SALT, kafka_pos(3), &policy)
        .unwrap()
        .unwrap();
    assert_eq!(a, b);
    let mut policy = default_policy();
    policy.hash_algorithm = "md5".into();
    let e = build_fingerprint_checked(&r, &content_fields(), &TEST_SALT, kafka_pos(0), &policy);
    assert!(matches!(e, Some(Err(CoreError::UnknownHashAlgorithm(a))) if a == "md5"));
    let mut policy = default_policy();
    policy.identity_rule = "bogus".into();
    assert_eq!(record_canons_kind(&r, &content_fields(), &policy), OutcomeKind::Fails);
}

#[test]
fn decimal_value_accepts_dec_prefix() {
    let s = spec();
    let mut out1 = vec![];
    let mut out2 = vec![];
    assert!(encode_value(&mut out1, &CanonValue::Decimal("dec:1.5".into()), &s).is_ok());
    assert!(encode_value(&mut out2, &CanonValue::Decimal("1.5".into()), &s).is_ok());
    let mut expected = vec![0xA3, 0, 0, 0, 8];
    expected.extend_from_slice(b"1.500000");
    assert_eq!(out1, expected);
    assert_eq!(out2, expected);
    assert_eq!(encode_value_kind(&CanonValue::Decimal("dec:1.5".into()), &s), OutcomeKind::Done);
}

#[test]
fn inclusion_path_has_ceil_log2_siblings() {
    let h = Sha256Hasher;
    for (n, expected) in [(1usize, 0usize), (2, 1), (3, 2), (4, 2), (5, 3), (8, 3), (9, 4)] {
        let mut leaves: Vec<[u8; 32]> =
            (0..n).map(|i| merkle_leaf(&h, &h.hash(format!("leaf{i}").as_bytes()))).collect();
        leaves.sort();
        let root = merkle_root(&h, leaves.clone());
        for (i, leaf) in leaves.iter().enumerate() {
            let p = merkle_proof(&h, &leaves, leaf).unwrap();
            assert_eq!(p.len(), expected);
            assert!(verify_merkle_proof_with_index(&h, &root, leaf, &p, i));
        }
    }
}

#[test]
fn kafka_positions_sort_as_offsets() {
    assert_eq!(kafka_pos(258).value, vec![0, 0, 0, 0, 0, 0, 1, 2]);
    let offsets = [0u64, 1, 255, 256, 258, 65536, u64::MAX - 1, u64::MAX];
    for a in offsets {
        for b in offsets {
            assert_eq!(kafka_pos(a).value <= kafka_pos(b).value, a <= b);
            assert_eq!(kafka_pos(a).value == kafka_pos(b).value, a == b);
        }
    }
}

#[test]
fn missing_records_are_distinct_source_records() {
    let src = sample_fps(5);
    let snk = sample_fps(2);
    let out = reconcile(&src, &snk, &default_policy(), &Sha256Hasher).unwrap();
    let mut positions: Vec<Vec<u8>> =
        out.result.missing.iter().map(|m| m.source_pos.value.clone()).collect();
    positions.sort();
    positions.dedup();
    assert_eq!(positions.len(), out.result.missing.len());
    for m in &out.result.missing {
        assert!(src.iter().any(|f| f.id_hash == m.id_hash && f.pos == m.source_pos));
    }
}

#[test]
fn fingerprint_rows_matches_each_record() {
    let policy = default_policy();
    let fields = content_fields();
    let r0 = business_record();
    let mut r1 = business_record();
    r1.insert("order_id".into(), CanonValue::String("2".into()));
    let rows = vec![(r0.clone(), kafka_pos(0)), (r1.clone(), kafka_pos(1))];
    let v = fingerprint_rows(&rows, &fields, &TEST_SALT, &policy).unwrap();
    assert_eq!(v.len(), 2);
    assert_eq!(v[0], build_fingerprint(&r0, &fields, &TEST_SALT, kafka_pos(0), &policy).unwrap());
    assert_eq!(v[1], build_fingerprint(&r1, &fields, &TEST_SALT, kafka_pos(1), &policy).unwrap());
    assert!(fingerprint_rows(&[], &fields, &TEST_SALT, &policy).unwrap().is_empty());
    let mut bad = business_record();
    bad.insert("status".into(), CanonValue::Null);
    let lacking = rec(&[("order_id", CanonValue::String("9".into()))]);
    let rows = vec![(r0, kafka_pos(0)), (lacking, kafka_pos(1)), (bad, kafka_pos(2))];
    let e = fingerprint_rows(&rows, &fields, &TEST_SALT, &policy).unwrap_err();
    assert!(matches!(e, CoreError::MissingIdentityField(f) if f == "line_id"));
}

#[test]
fn records_compare_by_fields_not_insertion_order() {
    let a = rec(&[("b", CanonValue::Bool(true)), ("a", CanonValue::Null), ("c", CanonValue::Bool(false))]);
    let b = rec(&[("c", CanonValue::Bool(false)), ("a", CanonValue::Null), ("b", CanonValue::Bool(true))]);
    assert_eq!(a, b);
    let mut c = b.clone();
    assert_eq!(c, a);
    c.insert("a".into(), CanonValue::Bool(true));
    assert_ne!(c, a);
}
