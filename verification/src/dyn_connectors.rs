//! Choosing the source and sink connectors that a configuration names.

use vstd::prelude::*;

use crate::config::{opt_view, PartitionRange, ReconConfig};
use crate::connectors::{
    int_object, BigQuerySinkConnector, EventHubsSourceConnector, IcebergSinkConnector,
    MemoryKafkaSource, MskKafkaSource, PubSubSourceConnector,
};
use crate::json::{
    json_bytes, json_member_views, json_str, json_to_vec, json_view, json_views,
    lemma_json_views_push, JsonValue, JsonView,
};
use crate::model::{Boundary, BoundaryMode};
use crate::text::{char_pos, copy_string, find_char, starts_with, str_eq, strip_prefix_str};

verus! {

/// `s` without leading `c`.
pub open spec fn trim_char_start(s: Seq<char>, c: char) -> Seq<char>
    decreases s.len(),
{
    if s.len() > 0 && s[0] == c {
        trim_char_start(s.drop_first(), c)
    } else {
        s
    }
}

/// `s` without trailing `c`.
pub open spec fn trim_char_end(s: Seq<char>, c: char) -> Seq<char>
    decreases s.len(),
{
    if s.len() > 0 && s.last() == c {
        trim_char_end(s.drop_last(), c)
    } else {
        s
    }
}

/// `s` without leading and trailing `c` (`str::trim_matches` with a character).
pub open spec fn trim_char(s: Seq<char>, c: char) -> Seq<char> {
    trim_char_end(trim_char_start(s, c), c)
}

/// Trims a character from both ends of a string.
pub fn trim_char_str(s: &str, c: char) -> (r: String)
    ensures
        r@ == trim_char(s@, c),
{
    let n = s.unicode_len();
    let mut a: usize = 0;
    assert(s@.skip(0) =~= s@);
    while a < n && s.get_char(a) == c
        invariant
            0 <= a <= n,
            n == s@.len(),
            trim_char_start(s@, c) == trim_char_start(s@.skip(a as int), c),
        decreases n - a,
    {
        assert(s@.skip(a as int).drop_first() =~= s@.skip(a + 1));
        a = a + 1;
    }
    let ghost ts = s@.skip(a as int);
    assert(trim_char_start(ts, c) == ts) by {
        if a < n {
            assert(ts[0] == s@[a as int]);
        }
    }
    let mut b: usize = n;
    assert(ts.take(ts.len() as int) =~= ts);
    while b > a && s.get_char(b - 1) == c
        invariant
            a <= b <= n,
            n == s@.len(),
            ts == s@.skip(a as int),
            trim_char_end(ts, c) == trim_char_end(ts.take(b - a), c),
        decreases b - a,
    {
        assert(ts.take(b - a).last() == s@[b - 1]);
        assert(ts.take(b - a).drop_last() =~= ts.take(b - 1 - a));
        b = b - 1;
    }
    assert(trim_char_end(ts.take(b - a), c) == ts.take(b - a)) by {
        if b > a {
            assert(ts.take(b - a).last() == s@[b - 1]);
        }
    }
    let r = s.substring_char(a, b);
    assert(r@ =~= ts.take(b - a));
    copy_string(r)
}

/// An object-store table location: bucket, key prefix (without surrounding
/// `/`) and table.
#[derive(Debug, Clone)]
pub struct S3Location {
    pub bucket: String,
    pub prefix: String,
    pub table: String,
}

/// The bucket and the key prefix of an `s3://bucket/prefix` URI.
pub open spec fn spec_parse_s3_uri(uri: Seq<char>) -> Result<(Seq<char>, Seq<char>), Seq<char>> {
    if !starts_with(uri, "s3://"@) {
        Err("expected s3:// URI"@)
    } else {
        let rest = uri.skip(5);
        let p = char_pos(rest, '/');
        Ok(
            (
                rest.take(p),
                if p < rest.len() {
                    rest.skip(p + 1)
                } else {
                    Seq::empty()
                },
            ),
        )
    }
}

/// Splits an `s3://bucket/prefix` URI into its bucket and its key prefix.
pub fn parse_s3_uri(uri: &str) -> (r: Result<(String, String), String>)
    ensures
        match spec_parse_s3_uri(uri@) {
            Ok((b, p)) => r matches Ok(v) && v.0@ == b && v.1@ == p,
            Err(m) => r matches Err(e) && e@ == m,
        },
{
    proof {
        reveal_strlit("s3://");
        reveal_strlit("");
    }
    let rest = match strip_prefix_str(uri, "s3://") {
        Some(rest) => rest,
        None => return Err(copy_string("expected s3:// URI")),
    };
    let n = rest.unicode_len();
    let p = find_char(rest, '/');
    let bucket = copy_string(rest.substring_char(0, p));
    let prefix = if p < n {
        copy_string(rest.substring_char(p + 1, n))
    } else {
        copy_string("")
    };
    assert(bucket@ =~= rest@.take(p as int));
    proof {
        if p < n {
            assert(prefix@ =~= rest@.skip(p + 1));
        }
    }
    Ok((bucket, prefix))
}

/// The location of a table under an `s3://` URI, its prefix trimmed of `/`.
pub open spec fn spec_s3_location(uri: Seq<char>, table: Seq<char>) -> Result<
    (Seq<char>, Seq<char>, Seq<char>),
    Seq<char>,
> {
    match spec_parse_s3_uri(uri) {
        Ok((b, p)) => Ok((b, trim_char(p, '/'), table)),
        Err(m) => Err(m),
    }
}

impl S3Location {
    /// The location of a table under an `s3://` URI.
    pub fn from_s3_uri(uri: &str, table: &str) -> (r: Result<S3Location, String>)
        ensures
            match spec_s3_location(uri@, table@) {
                Ok(v) => r matches Ok(l) && (l.bucket@, l.prefix@, l.table@) == v,
                Err(m) => r matches Err(e) && e@ == m,
            },
    {
        match parse_s3_uri(uri) {
            Ok((bucket, prefix)) => Ok(
                S3Location {
                    bucket,
                    prefix: trim_char_str(prefix.as_str(), '/'),
                    table: copy_string(table),
                },
            ),
            Err(e) => Err(e),
        }
    }

    /// The key of the snapshot manifest: `[prefix/]table/metadata/snapshots.json`.
    pub fn metadata_key(&self) -> (r: String)
        ensures
            r@ == (if self.prefix@.len() == 0 {
                Seq::empty()
            } else {
                self.prefix@ + "/"@
            }) + self.table@ + "/metadata/snapshots.json"@,
    {
        let mut out = String::new();
        if self.prefix.unicode_len() > 0 {
            out.append(self.prefix.as_str());
            out.append("/");
        }
        out.append(self.table.as_str());
        out.append("/metadata/snapshots.json");
        proof {
            reveal_strlit("");
        }
        out
    }

    /// The key of a data file: `[prefix/]table/file`.
    pub fn data_key(&self, file: &str) -> (r: String)
        ensures
            r@ == (if self.prefix@.len() == 0 {
                Seq::empty()
            } else {
                self.prefix@ + "/"@
            }) + self.table@ + "/"@ + file@,
    {
        let mut out = String::new();
        if self.prefix.unicode_len() > 0 {
            out.append(self.prefix.as_str());
            out.append("/");
        }
        out.append(self.table.as_str());
        out.append("/");
        out.append(file);
        out
    }
}

/// The source connector a configuration names.
pub enum DynSource {
    Memory(MemoryKafkaSource),
    Msk(MskKafkaSource),
    PubSub(PubSubSourceConnector),
    EventHubs(EventHubsSourceConnector),
}

/// The sink connector a configuration names.
pub enum DynSink {
    Iceberg(IcebergSinkConnector),
    IcebergS3(S3Location),
    BigQuery(BigQuerySinkConnector),
    Databricks { location: S3Location, catalog: String, schema: String, table: String },
}

/// The error for an unset setting.
fn required(msg: &str) -> (r: Result<DynSource, String>)
    ensures
        r matches Err(e) && e@ == msg@,
{
    Err(copy_string(msg))
}

/// Builds the source that `source.type` names: `memory_kafka`, `msk` or
/// `kafka` (brokers required, region `us-east-1` unless set), `pubsub`
/// (project and subscription required) or `eventhubs` (connection string
/// required); any other type is refused.
pub fn build_source(config: &ReconConfig) -> (r: Result<DynSource, String>)
    ensures
        ({
            let kind = config.source.kind@;
            let topic = config.source.topic@;
            &&& kind == "memory_kafka"@ ==> (r matches Ok(DynSource::Memory(m)) && m.topic@ == topic
                && m@ == Map::<(i32, i64), Seq<u8>>::empty())
            &&& (kind == "msk"@ || kind == "kafka"@) ==> match config.source.bootstrap_servers {
                None => r matches Err(e) && e@ == "source.bootstrap_servers required for msk"@,
                Some(s) => r matches Ok(DynSource::Msk(m)) && m.bootstrap_servers@ == s@
                    && m.topic@ == topic && m.region@ == match config.source.region {
                    Some(g) => g@,
                    None => "us-east-1"@,
                },
            }
            &&& kind == "pubsub"@ ==> match (config.source.project, config.source.subscription) {
                (None, _) => r matches Err(e) && e@ == "source.project required for pubsub"@,
                (Some(_), None) => r matches Err(e) && e@
                    == "source.subscription required for pubsub"@,
                (Some(p), Some(s)) => r matches Ok(DynSource::PubSub(c)) && c.project@ == p@
                    && c.subscription@ == s@,
            }
            &&& kind == "eventhubs"@ ==> match config.source.connection_string {
                None => r matches Err(e) && e@
                    == "source.connection_string required for eventhubs"@,
                Some(s) => r matches Ok(DynSource::EventHubs(c)) && c.connection_string@ == s@
                    && c.topic@ == topic,
            }
            &&& (kind != "memory_kafka"@ && kind != "msk"@ && kind != "kafka"@ && kind
                != "pubsub"@ && kind != "eventhubs"@) ==> (r matches Err(e) && e@
                == "unknown source type '"@ + kind
                + "' (enable --features cloud for msk/pubsub/eventhubs)"@)
        }),
{
    broadcast use vstd::string::group_string_axioms;

    proof {
        reveal_strlit("memory_kafka");
        reveal_strlit("msk");
        reveal_strlit("kafka");
        reveal_strlit("pubsub");
        reveal_strlit("eventhubs");
        assert("memory_kafka"@.len() == 12);
        assert("msk"@.len() == 3);
        assert("kafka"@.len() == 5);
        assert("pubsub"@.len() == 6);
        assert("eventhubs"@.len() == 9);
        assert("msk"@[0] != "kafka"@[0]);
    }
    let kind = config.source.kind.as_str();
    let topic = config.source.topic.as_str();
    if str_eq(kind, "memory_kafka") {
        Ok(DynSource::Memory(MemoryKafkaSource::new(topic)))
    } else if str_eq(kind, "msk") || str_eq(kind, "kafka") {
        let servers = match &config.source.bootstrap_servers {
            Some(s) => s,
            None => return required("source.bootstrap_servers required for msk"),
        };
        let region = match &config.source.region {
            Some(g) => copy_string(g.as_str()),
            None => copy_string("us-east-1"),
        };
        Ok(DynSource::Msk(MskKafkaSource::new(servers.as_str(), topic, region.as_str())))
    } else if str_eq(kind, "pubsub") {
        let project = match &config.source.project {
            Some(p) => p,
            None => return required("source.project required for pubsub"),
        };
        let sub = match &config.source.subscription {
            Some(s) => s,
            None => return required("source.subscription required for pubsub"),
        };
        Ok(DynSource::PubSub(PubSubSourceConnector::new(project.as_str(), sub.as_str())))
    } else if str_eq(kind, "eventhubs") {
        let conn = match &config.source.connection_string {
            Some(s) => s,
            None => return required("source.connection_string required for eventhubs"),
        };
        Ok(DynSource::EventHubs(EventHubsSourceConnector::new(conn.as_str(), topic)))
    } else {
        let mut m = String::from_str("unknown source type '");
        m.append(kind);
        m.append("' (enable --features cloud for msk/pubsub/eventhubs)");
        Err(m)
    }
}

fn sink_error(msg: &str) -> (r: Result<DynSink, String>)
    ensures
        r matches Err(e) && e@ == msg@,
{
    Err(copy_string(msg))
}

/// Builds the sink that `sink.type` names: `iceberg` (warehouse required),
/// `iceberg_s3` or `iceberg-s3` (warehouse URI required), `bigquery` (the
/// source project, else the `GCP_PROJECT` value handed in, and the dataset
/// required) or `databricks` / `databricks_delta` (warehouse URI required,
/// catalog `main`, schema `default`, table `delta`); any other type is
/// refused.
pub fn build_sink(config: &ReconConfig, gcp_project_env: Option<&str>) -> (r: Result<
    DynSink,
    String,
>)
    ensures
        ({
            let kind = config.sink.kind@;
            let table = config.sink.table@;
            &&& kind == "iceberg"@ ==> match config.sink.warehouse {
                None => r matches Err(e) && e@ == "sink.warehouse required for iceberg"@,
                Some(w) => r matches Ok(DynSink::Iceberg(c)) && c.config.root@ == w@
                    && c.config.table@ == table,
            }
            &&& (kind == "iceberg_s3"@ || kind == "iceberg-s3"@) ==> match config.sink.warehouse_uri {
                None => r matches Err(e) && e@ == "sink.warehouse_uri required for iceberg_s3"@,
                Some(u) => match spec_s3_location(u@, table) {
                    Ok(v) => r matches Ok(DynSink::IcebergS3(l)) && (l.bucket@, l.prefix@, l.table@)
                        == v,
                    Err(m) => r matches Err(e) && e@ == m,
                },
            }
            &&& kind == "bigquery"@ ==> match (
                match opt_view(config.source.project) {
                    Some(p) => Some(p),
                    None => match gcp_project_env {
                        Some(g) => Some(g@),
                        None => None,
                    },
                },
                config.sink.dataset,
            ) {
                (None, _) => r matches Err(e) && e@
                    == "source.project or GCP_PROJECT required for bigquery"@,
                (Some(_), None) => r matches Err(e) && e@ == "sink.dataset required for bigquery"@,
                (Some(p), Some(d)) => r matches Ok(DynSink::BigQuery(c)) && c.project@ == p
                    && c.dataset@ == d@ && c.table@ == table,
            }
            &&& (kind == "databricks"@ || kind == "databricks_delta"@) ==> match config.sink.warehouse_uri {
                None => r matches Err(e) && e@ == "sink.warehouse_uri required for databricks"@,
                Some(u) => match spec_s3_location(u@, table) {
                    Ok(v) => r matches Ok(DynSink::Databricks { location, catalog, schema, table: t })
                        && (location.bucket@, location.prefix@, location.table@) == v
                        && catalog@ == "main"@ && schema@ == "default"@ && t@ == "delta"@,
                    Err(m) => r matches Err(e) && e@ == m,
                },
            }
            &&& (kind != "iceberg"@ && kind != "iceberg_s3"@ && kind != "iceberg-s3"@ && kind
                != "bigquery"@ && kind != "databricks"@ && kind != "databricks_delta"@)
                ==> (r matches Err(e) && e@ == "unknown sink type '"@ + kind
                + "' (enable --features cloud for iceberg_s3/bigquery/databricks)"@)
        }),
{
    broadcast use vstd::string::group_string_axioms;

    proof {
        reveal_strlit("iceberg");
        reveal_strlit("iceberg_s3");
        reveal_strlit("iceberg-s3");
        reveal_strlit("bigquery");
        reveal_strlit("databricks");
        reveal_strlit("databricks_delta");
        assert("iceberg"@.len() == 7);
        assert("iceberg_s3"@.len() == 10);
        assert("iceberg-s3"@.len() == 10);
        assert("bigquery"@.len() == 8);
        assert("databricks"@.len() == 10);
        assert("databricks_delta"@.len() == 16);
        assert("iceberg_s3"@[7] != "iceberg-s3"@[7]);
        assert("iceberg_s3"@[0] != "databricks"@[0]);
        assert("iceberg-s3"@[0] != "databricks"@[0]);
    }
    let kind = config.sink.kind.as_str();
    let table = config.sink.table.as_str();
    if str_eq(kind, "iceberg") {
        match &config.sink.warehouse {
            Some(w) => Ok(DynSink::Iceberg(IcebergSinkConnector::new(w.as_str(), table))),
            None => sink_error("sink.warehouse required for iceberg"),
        }
    } else if str_eq(kind, "iceberg_s3") || str_eq(kind, "iceberg-s3") {
        match &config.sink.warehouse_uri {
            Some(u) => match S3Location::from_s3_uri(u.as_str(), table) {
                Ok(l) => Ok(DynSink::IcebergS3(l)),
                Err(e) => Err(e),
            },
            None => sink_error("sink.warehouse_uri required for iceberg_s3"),
        }
    } else if str_eq(kind, "bigquery") {
        let project = match &config.source.project {
            Some(p) => copy_string(p.as_str()),
            None => match gcp_project_env {
                Some(g) => copy_string(g),
                None => return sink_error("source.project or GCP_PROJECT required for bigquery"),
            },
        };
        match &config.sink.dataset {
            Some(d) => Ok(
                DynSink::BigQuery(BigQuerySinkConnector::new(project.as_str(), d.as_str(), table)),
            ),
            None => sink_error("sink.dataset required for bigquery"),
        }
    } else if str_eq(kind, "databricks") || str_eq(kind, "databricks_delta") {
        match &config.sink.warehouse_uri {
            Some(u) => match S3Location::from_s3_uri(u.as_str(), table) {
                Ok(location) => Ok(
                    DynSink::Databricks {
                        location,
                        catalog: copy_string("main"),
                        schema: copy_string("default"),
                        table: copy_string("delta"),
                    },
                ),
                Err(e) => Err(e),
            },
            None => sink_error("sink.warehouse_uri required for databricks"),
        }
    } else {
        let mut m = String::from_str("unknown sink type '");
        m.append(kind);
        m.append("' (enable --features cloud for iceberg_s3/bigquery/databricks)");
        Err(m)
    }
}

/// The JSON object of one partition range: its id, start and end.
pub open spec fn partition_object(p: PartitionRange) -> JsonView {
    int_object(seq![("id"@, p.id as int), ("start"@, p.start as int), ("end"@, p.end as int)])
}

/// The JSON object that lists partition ranges under `partitions`.
pub open spec fn partitions_object(parts: Seq<PartitionRange>) -> JsonView {
    JsonView::Object(
        seq![("partitions"@, JsonView::Array(parts.map_values(|p: PartitionRange| partition_object(p))))],
    )
}

/// The source boundary lists every configured partition range: its JSON
/// object has the one member `partitions`, an array with one entry per range
/// in the configured order, each the object of that range's `id`, `start`
/// and `end`.
pub proof fn law_boundary_lists_every_partition(parts: Seq<PartitionRange>)
    ensures
        partitions_object(parts) == JsonView::Object(
            seq![
                ("partitions"@, JsonView::Array(
                    Seq::new(
                        parts.len(),
                        |i: int|
                            JsonView::Object(
                                seq![
                                    ("id"@, JsonView::Int(parts[i].id as int)),
                                    ("start"@, JsonView::Int(parts[i].start as int)),
                                    ("end"@, JsonView::Int(parts[i].end as int)),
                                ],
                            ),
                    ),
                )),
            ],
        ),
{
    let a = parts.map_values(|p: PartitionRange| partition_object(p));
    let b = Seq::new(
        parts.len(),
        |i: int|
            JsonView::Object(
                seq![
                    ("id"@, JsonView::Int(parts[i].id as int)),
                    ("start"@, JsonView::Int(parts[i].start as int)),
                    ("end"@, JsonView::Int(parts[i].end as int)),
                ],
            ),
    );
    assert forall|i: int| 0 <= i < parts.len() implies a[i] == b[i] by {
        let m = seq![
            ("id"@, parts[i].id as int),
            ("start"@, parts[i].start as int),
            ("end"@, parts[i].end as int),
        ];
        assert(m.map_values(|x: (Seq<char>, int)| (x.0, JsonView::Int(x.1))) =~= seq![
            ("id"@, JsonView::Int(parts[i].id as int)),
            ("start"@, JsonView::Int(parts[i].start as int)),
            ("end"@, JsonView::Int(parts[i].end as int)),
        ]);
    }
    assert(a =~= b);
}

/// The JSON object of one partition range.
fn partition_json(p: &PartitionRange) -> (r: JsonValue)
    ensures
        json_view(r) == partition_object(*p),
{
    let members = vec![
        (String::from_str("id"), JsonValue::Int(p.id as i64)),
        (String::from_str("start"), JsonValue::Int(p.start)),
        (String::from_str("end"), JsonValue::Int(p.end)),
    ];
    proof {
        reveal_with_fuel(json_member_views, 4);
        assert(json_member_views(members@) =~= partition_object(*p)->Object_0);
    }
    JsonValue::Object(members)
}

/// The boundary of the source: its partition offset ranges.
pub fn kafka_boundary(config: &ReconConfig) -> (r: Boundary)
    ensures
        r.mode == BoundaryMode::OffsetRange,
        r.value@ == json_bytes(partitions_object(config.source.boundary.partitions@)),
{
    let parts = config.source.boundary.partitions.as_slice();
    let mut list: Vec<JsonValue> = Vec::new();
    let mut i: usize = 0;
    while i < parts.len()
        invariant
            0 <= i <= parts@.len(),
            json_views(list@) == parts@.take(i as int).map_values(
                |p: PartitionRange| partition_object(p),
            ),
        decreases parts@.len() - i,
    {
        let item = partition_json(&parts[i]);
        proof {
            lemma_json_views_push(list@, item);
            assert(parts@.take(i + 1).map_values(|p: PartitionRange| partition_object(p))
                =~= parts@.take(i as int).map_values(|p: PartitionRange| partition_object(p)).push(
                partition_object(parts@[i as int]),
            ));
        }
        list.push(item);
        i = i + 1;
    }
    assert(parts@.take(parts@.len() as int) =~= parts@);
    let members = vec![(String::from_str("partitions"), JsonValue::Array(list))];
    proof {
        reveal_with_fuel(json_member_views, 2);
        assert(json_member_views(members@) =~= partitions_object(parts@)->Object_0);
    }
    Boundary { mode: BoundaryMode::OffsetRange, value: json_to_vec(&JsonValue::Object(members)) }
}

/// The JSON object of the BigQuery boundary: its SQL filter, or null.
pub open spec fn sql_filter_object(filter: Option<Seq<char>>) -> JsonView {
    JsonView::Object(
        seq![
            ("sql_filter"@, match filter {
                Some(f) => JsonView::Str(f),
                None => JsonView::Null,
            }),
        ],
    )
}

/// The boundary of the sink: for BigQuery its optional SQL filter, else
/// its snapshot range.
pub fn sink_boundary(config: &ReconConfig) -> (r: Boundary)
    ensures
        r.mode == BoundaryMode::BatchId,
        config.sink.kind@ == "bigquery"@ ==> r.value@ == json_bytes(
            sql_filter_object(opt_view(config.sink.boundary.sql_filter)),
        ),
        config.sink.kind@ != "bigquery"@ ==> r.value@ == json_bytes(
            int_object(
                seq![
                    ("snapshot_from"@, config.sink.boundary.snapshot_from as int),
                    ("snapshot_to"@, config.sink.boundary.snapshot_to as int),
                ],
            ),
        ),
{
    if str_eq(config.sink.kind.as_str(), "bigquery") {
        let filter = match &config.sink.boundary.sql_filter {
            Some(f) => json_str(f.as_str()),
            None => JsonValue::Null,
        };
        let members = vec![(String::from_str("sql_filter"), filter)];
        proof {
            reveal_with_fuel(json_member_views, 2);
            assert(json_member_views(members@) =~= sql_filter_object(
                opt_view(config.sink.boundary.sql_filter),
            )->Object_0);
        }
        Boundary { mode: BoundaryMode::BatchId, value: json_to_vec(&JsonValue::Object(members)) }
    } else {
        let members = vec![
            (String::from_str("snapshot_from"), JsonValue::Int(config.sink.boundary.snapshot_from)),
            (String::from_str("snapshot_to"), JsonValue::Int(config.sink.boundary.snapshot_to)),
        ];
        proof {
            reveal_with_fuel(json_member_views, 3);
            assert(json_member_views(members@) =~= int_object(
                seq![
                    ("snapshot_from"@, config.sink.boundary.snapshot_from as int),
                    ("snapshot_to"@, config.sink.boundary.snapshot_to as int),
                ],
            )->Object_0);
        }
        Boundary { mode: BoundaryMode::BatchId, value: json_to_vec(&JsonValue::Object(members)) }
    }
}

} // verus!
