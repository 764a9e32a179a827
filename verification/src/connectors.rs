//! Source and sink connectors: their settings, the SQL that hashes rows in
//! a warehouse, snapshot selection, record positions and an in-memory topic.

use vstd::prelude::*;

use crate::config::PartitionRange;
use crate::json::{json_bytes, json_member_views, json_to_vec, JsonValue, JsonView};
use crate::model::{Position, PositionKind};
use crate::record::{CanonValue, Record};
use crate::text::{copy_bytes, copy_string, decimal_text, push_decimal_u128, string_views};

verus! {

/// A BigQuery table whose rows are hashed by SQL inside the warehouse.
pub struct BigQuerySinkConnector {
    pub project: String,
    pub dataset: String,
    pub table: String,
}

/// One content column, cast to text with NULL as the empty string.
pub open spec fn coalesced(field: Seq<char>) -> Seq<char> {
    "COALESCE(CAST(`"@ + field + "` AS STRING), '')"@
}

/// The coalesced columns joined by `|`.
pub open spec fn joined_columns(fields: Seq<Seq<char>>) -> Seq<char>
    decreases fields.len(),
{
    if fields.len() == 0 {
        Seq::empty()
    } else if fields.len() == 1 {
        coalesced(fields[0])
    } else {
        joined_columns(fields.drop_last()) + " || '|' || "@ + coalesced(fields.last())
    }
}

/// The query that hashes each row of the table with SHA-256 over its
/// content columns, under an optional filter.
pub open spec fn spec_hash_sql(
    project: Seq<char>,
    dataset: Seq<char>,
    table: Seq<char>,
    fields: Seq<Seq<char>>,
    filter: Option<Seq<char>>,
) -> Seq<char> {
    "SELECT TO_HEX(SHA256("@ + joined_columns(fields) + ")) AS row_hash FROM `"@ + project + "."@
        + dataset + "."@ + table + "`"@ + match filter {
        Some(f) => " WHERE "@ + f,
        None => Seq::empty(),
    }
}

impl BigQuerySinkConnector {
    /// A connector for `project.dataset.table`.
    pub fn new(project: &str, dataset: &str, table: &str) -> (r: Self)
        ensures
            r.project@ == project@,
            r.dataset@ == dataset@,
            r.table@ == table@,
    {
        BigQuerySinkConnector {
            project: copy_string(project),
            dataset: copy_string(dataset),
            table: copy_string(table),
        }
    }

    /// The hashing query over the content fields, with an optional filter.
    pub fn hash_sql(&self, content_fields: &[String], filter: Option<&str>) -> (r: String)
        ensures
            r@ == spec_hash_sql(
                self.project@,
                self.dataset@,
                self.table@,
                crate::text::string_views(content_fields@),
                match filter {
                    Some(f) => Some(f@),
                    None => None,
                },
            ),
    {
        let ghost names = crate::text::string_views(content_fields@);
        let mut concat = String::new();
        let mut i: usize = 0;
        while i < content_fields.len()
            invariant
                0 <= i <= content_fields@.len(),
                names == crate::text::string_views(content_fields@),
                concat@ == joined_columns(names.take(i as int)),
            decreases content_fields@.len() - i,
        {
            let ghost t = names.take(i + 1);
            assert(t.drop_last() =~= names.take(i as int));
            assert(t.last() == content_fields@[i as int]@);
            if i > 0 {
                concat.append(" || '|' || ");
            }
            concat.append("COALESCE(CAST(`");
            concat.append(content_fields[i].as_str());
            concat.append("` AS STRING), '')");
            proof {
                if i == 0 {
                    assert(t =~= seq![content_fields@[0]@]);
                }
            }
            assert(concat@ =~= joined_columns(names.take(i + 1)));
            i = i + 1;
        }
        assert(names.take(content_fields@.len() as int) =~= names);
        let mut sql = String::from_str("SELECT TO_HEX(SHA256(");
        sql.append(concat.as_str());
        sql.append(")) AS row_hash FROM `");
        sql.append(self.project.as_str());
        sql.append(".");
        sql.append(self.dataset.as_str());
        sql.append(".");
        sql.append(self.table.as_str());
        sql.append("`");
        if let Some(f) = filter {
            sql.append(" WHERE ");
            sql.append(f);
        }
        proof {
            reveal_strlit("");
        }
        assert(sql@ =~= spec_hash_sql(
            self.project@,
            self.dataset@,
            self.table@,
            names,
            match filter {
                Some(f) => Some(f@),
                None => None,
            },
        ));
        sql
    }
}

/// An Amazon MSK topic read with IAM authentication.
pub struct MskKafkaSource {
    pub bootstrap_servers: String,
    pub topic: String,
    pub region: String,
}

impl MskKafkaSource {
    /// A source for a topic on the given brokers and region.
    pub fn new(bootstrap_servers: &str, topic: &str, region: &str) -> (r: Self)
        ensures
            r.bootstrap_servers@ == bootstrap_servers@,
            r.topic@ == topic@,
            r.region@ == region@,
    {
        MskKafkaSource {
            bootstrap_servers: copy_string(bootstrap_servers),
            topic: copy_string(topic),
            region: copy_string(region),
        }
    }
}

/// An Azure Event Hubs topic read through its Kafka surface.
pub struct EventHubsSourceConnector {
    pub connection_string: String,
    pub topic: String,
}

impl EventHubsSourceConnector {
    /// A source for a topic of the namespace that the connection string names.
    pub fn new(connection_string: &str, topic: &str) -> (r: Self)
        ensures
            r.connection_string@ == connection_string@,
            r.topic@ == topic@,
    {
        EventHubsSourceConnector {
            connection_string: copy_string(connection_string),
            topic: copy_string(topic),
        }
    }
}

/// A Google Pub/Sub subscription.
pub struct PubSubSourceConnector {
    pub project: String,
    pub subscription: String,
}

impl PubSubSourceConnector {
    /// A source for a subscription of a project.
    pub fn new(project: &str, subscription: &str) -> (r: Self)
        ensures
            r.project@ == project@,
            r.subscription@ == subscription@,
    {
        PubSubSourceConnector {
            project: copy_string(project),
            subscription: copy_string(subscription),
        }
    }
}

/// A filesystem Iceberg warehouse and a table in it.
#[derive(Debug, Clone)]
pub struct WarehouseConfig {
    pub root: String,
    pub table: String,
}

/// An Iceberg-style snapshot: its id and its data files.
#[derive(Debug, Clone)]
pub struct SnapshotManifest {
    pub snapshot_id: i64,
    pub files: Vec<String>,
}

/// The snapshot belongs to the inclusive id range.
pub open spec fn in_range(m: SnapshotManifest, from: i64, to: i64) -> bool {
    from <= m.snapshot_id && m.snapshot_id <= to
}

/// The manifests whose ids lie in `from..=to`, in their order.
pub open spec fn spec_snapshots_in_range(ms: Seq<SnapshotManifest>, from: i64, to: i64) -> Seq<
    SnapshotManifest,
>
    decreases ms.len(),
{
    if ms.len() == 0 {
        Seq::empty()
    } else {
        let rest = spec_snapshots_in_range(ms.drop_last(), from, to);
        if in_range(ms.last(), from, to) {
            rest.push(ms.last())
        } else {
            rest
        }
    }
}

/// The text of a field that holds a string, if it does.
pub open spec fn string_field(r: Map<Seq<char>, CanonValue>, name: Seq<char>) -> Option<Seq<char>> {
    if r.dom().contains(name) {
        match r[name] {
            CanonValue::String(s) => Some(s@),
            _ => None,
        }
    } else {
        None
    }
}

/// A column of string values, one per row, when every row holds the field
/// as a string.
pub open spec fn string_column(rows: Seq<Record>, name: Seq<char>) -> Option<Seq<Seq<char>>> {
    if forall|i: int| 0 <= i < rows.len() ==> #[trigger] string_field(rows[i]@, name) is Some {
        Some(Seq::new(rows.len(), |i: int| string_field(rows[i]@, name)->0))
    } else {
        None
    }
}

/// The columns of a snapshot file: `order_id`, `line_id`, `amount` and
/// `status`, each a string in every row; the first column that some row
/// lacks is named in the error.
pub open spec fn spec_snapshot_columns(rows: Seq<Record>) -> Result<Seq<Seq<Seq<char>>>, Seq<char>> {
    match string_column(rows, "order_id"@) {
        None => Err("missing order_id"@),
        Some(c0) => match string_column(rows, "line_id"@) {
            None => Err("missing line_id"@),
            Some(c1) => match string_column(rows, "amount"@) {
                None => Err("missing amount"@),
                Some(c2) => match string_column(rows, "status"@) {
                    None => Err("missing status"@),
                    Some(c3) => Ok(seq![c0, c1, c2, c3]),
                },
            },
        },
    }
}

/// One string column of the rows, or `None` when a row lacks it.
fn column_of(rows: &[Record], name: &str) -> (r: Option<Vec<String>>)
    ensures
        match string_column(rows@, name@) {
            Some(c) => r matches Some(v) && string_views(v@) == c,
            None => r is None,
        },
{
    let mut out: Vec<String> = Vec::new();
    let mut i: usize = 0;
    while i < rows.len()
        invariant
            0 <= i <= rows@.len(),
            out@.len() == i,
            forall|j: int| 0 <= j < i ==> #[trigger] string_field(rows@[j]@, name@) is Some,
            forall|j: int|
                0 <= j < i ==> (#[trigger] out@[j])@ == string_field(rows@[j]@, name@)->0,
        decreases rows@.len() - i,
    {
        match rows[i].get(name) {
            Some(CanonValue::String(t)) => {
                out.push(copy_string(t.as_str()));
            },
            _ => {
                assert(string_field(rows@[i as int]@, name@) is None);
                return None;
            },
        }
        i = i + 1;
    }
    assert(string_views(out@) =~= Seq::new(
        rows@.len(),
        |i: int| string_field(rows@[i]@, name@)->0,
    ));
    Some(out)
}

/// The four string columns of a snapshot file, checked row by row.
pub fn snapshot_columns(rows: &[Record]) -> (r: Result<Vec<Vec<String>>, String>)
    ensures
        match spec_snapshot_columns(rows@) {
            Ok(cols) => r matches Ok(v) && v@.len() == 4 && forall|k: int|
                0 <= k < 4 ==> string_views(#[trigger] v@[k]@) == cols[k],
            Err(m) => r matches Err(e) && e@ == m,
        },
{
    let c0 = match column_of(rows, "order_id") {
        Some(c) => c,
        None => return Err(copy_string("missing order_id")),
    };
    let c1 = match column_of(rows, "line_id") {
        Some(c) => c,
        None => return Err(copy_string("missing line_id")),
    };
    let c2 = match column_of(rows, "amount") {
        Some(c) => c,
        None => return Err(copy_string("missing amount")),
    };
    let c3 = match column_of(rows, "status") {
        Some(c) => c,
        None => return Err(copy_string("missing status")),
    };
    let ghost g = (c0@, c1@, c2@, c3@);
    let v = vec![c0, c1, c2, c3];
    assert(v@[0]@ == g.0 && v@[1]@ == g.1 && v@[2]@ == g.2 && v@[3]@ == g.3);
    Ok(v)
}

/// The manifests whose snapshot ids lie in `from..=to`, in their order.
pub fn snapshots_in_range(manifests: &[SnapshotManifest], from: i64, to: i64) -> (r: Vec<
    &SnapshotManifest,
>)
    ensures
        r@.len() == spec_snapshots_in_range(manifests@, from, to).len(),
        forall|i: int|
            0 <= i < r@.len() ==> *r@[i] == #[trigger] spec_snapshots_in_range(
                manifests@,
                from,
                to,
            )[i],
{
    let mut out: Vec<&SnapshotManifest> = Vec::new();
    let mut i: usize = 0;
    while i < manifests.len()
        invariant
            0 <= i <= manifests@.len(),
            out@.len() == spec_snapshots_in_range(manifests@.take(i as int), from, to).len(),
            forall|j: int|
                0 <= j < out@.len() ==> *out@[j] == #[trigger] spec_snapshots_in_range(
                    manifests@.take(i as int),
                    from,
                    to,
                )[j],
        decreases manifests@.len() - i,
    {
        let ghost t = manifests@.take(i + 1);
        assert(t.drop_last() =~= manifests@.take(i as int));
        assert(t.last() == manifests@[i as int]);
        let m = &manifests[i];
        if m.snapshot_id >= from && m.snapshot_id <= to {
            out.push(m);
        }
        i = i + 1;
    }
    assert(manifests@.take(manifests@.len() as int) =~= manifests@);
    out
}

/// An Iceberg table in a filesystem warehouse.
pub struct IcebergSinkConnector {
    pub config: WarehouseConfig,
}

impl IcebergSinkConnector {
    /// A sink for a table under a warehouse root.
    pub fn new(root: &str, table: &str) -> (r: Self)
        ensures
            r.config.root@ == root@,
            r.config.table@ == table@,
    {
        IcebergSinkConnector {
            config: WarehouseConfig { root: copy_string(root), table: copy_string(table) },
        }
    }
}

/// The messages of a topic by partition and offset.
pub open spec fn lookup_message(entries: Seq<(i32, i64, Vec<u8>)>, p: i32, o: i64) -> Option<
    Seq<u8>,
>
    decreases entries.len(),
{
    if entries.len() == 0 {
        None
    } else if entries.last().0 == p && entries.last().1 == o {
        Some(entries.last().2@)
    } else {
        lookup_message(entries.drop_last(), p, o)
    }
}

/// An in-memory Kafka topic: JSON payloads by partition and offset.
#[derive(Debug, Clone)]
pub struct MemoryKafkaSource {
    pub topic: String,
    pub entries: Vec<(i32, i64, Vec<u8>)>,
}

/// `std::time::SystemTime`, carried through opaque.
#[verifier::external_type_specification]
#[verifier::external_body]
pub struct ExSystemTime(std::time::SystemTime);

/// `SystemTime::now`: the current time of the system clock. Nothing is
/// stated of it.
#[verifier::external_body]
fn system_now() -> (r: std::time::SystemTime) {
    std::time::SystemTime::now()
}

/// `SystemTime::elapsed`, as nanoseconds (zero where the clock went back,
/// as `unwrap_or_default` gives). It depends on the clock, so nothing is
/// stated of it.
#[verifier::external_body]
fn elapsed_nanos(t: &std::time::SystemTime) -> (r: u128) {
    t.elapsed().unwrap_or_default().as_nanos()
}

/// A Kafka topic read through a Kafka client: its brokers, topic and the
/// consumer group that reads it.
pub struct KafkaSourceConnector {
    pub bootstrap_servers: String,
    pub topic: String,
    pub group_id: String,
}

impl KafkaSourceConnector {
    /// A source for a topic on the given brokers, in a consumer group of its
    /// own: `veridata-` and a number of nanoseconds read from the clock.
    pub fn new(bootstrap_servers: &str, topic: &str) -> (r: Self)
        ensures
            r.bootstrap_servers@ == bootstrap_servers@,
            r.topic@ == topic@,
            exists|n: nat| r.group_id@ == "veridata-"@ + decimal_text(n),
    {
        let mut group_id = String::from_str("veridata-");
        let start = system_now();
        let n = elapsed_nanos(&start);
        push_decimal_u128(&mut group_id, n);
        proof {
            reveal_strlit("veridata-");
            assert(group_id@ == "veridata-"@ + decimal_text(n as nat));
        }
        KafkaSourceConnector {
            bootstrap_servers: copy_string(bootstrap_servers),
            topic: copy_string(topic),
            group_id,
        }
    }
}

impl View for MemoryKafkaSource {
    type V = Map<(i32, i64), Seq<u8>>;

    closed spec fn view(&self) -> Map<(i32, i64), Seq<u8>> {
        Map::new(
            |k: (i32, i64)| lookup_message(self.entries@, k.0, k.1) is Some,
            |k: (i32, i64)| lookup_message(self.entries@, k.0, k.1).unwrap(),
        )
    }
}

impl MemoryKafkaSource {
    /// An empty topic.
    pub fn new(topic: &str) -> (r: Self)
        ensures
            r.topic@ == topic@,
            r@ == Map::<(i32, i64), Seq<u8>>::empty(),
    {
        let r = MemoryKafkaSource { topic: copy_string(topic), entries: Vec::new() };
        assert(r@ =~= Map::<(i32, i64), Seq<u8>>::empty());
        r
    }

    /// Stores a payload at a partition and offset, replacing any there.
    pub fn produce(&mut self, partition: i32, offset: i64, json: &[u8])
        ensures
            final(self).topic == old(self).topic,
            final(self)@ == old(self)@.insert((partition, offset), json@),
    {
        let ghost before = self.entries@;
        self.entries.push((partition, offset, copy_bytes(json)));
        proof {
            let after = self.entries@;
            assert(after.drop_last() =~= before);
            assert(self@ =~= old(self)@.insert((partition, offset), json@));
        }
    }

    /// The payload at a partition and offset, if one was produced there.
    pub fn payload(&self, partition: i32, offset: i64) -> (r: Option<&Vec<u8>>)
        ensures
            r is Some == self@.dom().contains((partition, offset)),
            r matches Some(v) ==> v@ == self@[(partition, offset)],
    {
        let mut i: usize = self.entries.len();
        assert(self.entries@.take(i as int) =~= self.entries@);
        while i > 0
            invariant
                0 <= i <= self.entries@.len(),
                lookup_message(self.entries@, partition, offset) == lookup_message(
                    self.entries@.take(i as int),
                    partition,
                    offset,
                ),
            decreases i,
        {
            let ghost t = self.entries@.take(i as int);
            assert(t.drop_last() =~= self.entries@.take(i - 1));
            let e = &self.entries[i - 1];
            if e.0 == partition && e.1 == offset {
                return Some(&e.2);
            }
            i = i - 1;
        }
        None
    }
}

/// The payloads of one partition at offsets `start..hi`, in offset order.
pub open spec fn range_payloads(m: Map<(i32, i64), Seq<u8>>, p: i32, start: int, hi: int) -> Seq<
    Seq<u8>,
>
    decreases hi - start,
{
    if hi <= start {
        Seq::empty()
    } else {
        let r = range_payloads(m, p, start, hi - 1);
        if m.dom().contains((p, (hi - 1) as i64)) {
            r.push(m[(p, (hi - 1) as i64)])
        } else {
            r
        }
    }
}

/// The payloads of the inclusive offset ranges, range by range.
pub open spec fn boundary_payloads(m: Map<(i32, i64), Seq<u8>>, parts: Seq<PartitionRange>) -> Seq<
    Seq<u8>,
>
    decreases parts.len(),
{
    if parts.len() == 0 {
        Seq::empty()
    } else {
        let last = parts.last();
        boundary_payloads(m, parts.drop_last()) + range_payloads(
            m,
            last.id,
            last.start as int,
            last.end + 1,
        )
    }
}

impl MemoryKafkaSource {
    /// The payloads stored in the inclusive offset ranges, range by range
    /// and in offset order.
    pub fn payloads_in_ranges(&self, parts: &[PartitionRange]) -> (r: Vec<Vec<u8>>)
        ensures
            crate::order::byte_views(r@) == boundary_payloads(self@, parts@),
    {
        let mut out: Vec<Vec<u8>> = Vec::new();
        let mut k: usize = 0;
        while k < parts.len()
            invariant
                0 <= k <= parts@.len(),
                crate::order::byte_views(out@) == boundary_payloads(self@, parts@.take(k as int)),
            decreases parts@.len() - k,
        {
            let part = parts[k];
            let ghost t = parts@.take(k + 1);
            assert(t.drop_last() =~= parts@.take(k as int));
            assert(t.last() == part);
            let ghost base = crate::order::byte_views(out@);
            if part.start <= part.end {
                let mut offset: i64 = part.start;
                loop
                    invariant_except_break
                        part.start <= offset <= part.end,
                        crate::order::byte_views(out@) == base + range_payloads(
                            self@,
                            part.id,
                            part.start as int,
                            offset as int,
                        ),
                    ensures
                        crate::order::byte_views(out@) == base + range_payloads(
                            self@,
                            part.id,
                            part.start as int,
                            part.end + 1,
                        ),
                    decreases part.end - offset,
                {
                    let ghost before = crate::order::byte_views(out@);
                    match self.payload(part.id, offset) {
                        Some(bytes) => {
                            out.push(copy_bytes(bytes.as_slice()));
                            assert(crate::order::byte_views(out@) =~= before.push(
                                self@[(part.id, offset)],
                            ));
                        },
                        None => {},
                    }
                    assert(crate::order::byte_views(out@) =~= base + range_payloads(
                        self@,
                        part.id,
                        part.start as int,
                        offset + 1,
                    ));
                    if offset == part.end {
                        break;
                    }
                    offset = offset + 1;
                }
            } else {
                assert(range_payloads(self@, part.id, part.start as int, part.end + 1)
                    =~= Seq::<Seq<u8>>::empty());
                assert(base + Seq::<Seq<u8>>::empty() =~= base);
            }
            k = k + 1;
        }
        assert(parts@.take(parts@.len() as int) =~= parts@);
        out
    }
}

/// A JSON object whose members are the named integers.
pub open spec fn int_object(members: Seq<(Seq<char>, int)>) -> JsonView {
    JsonView::Object(members.map_values(|m: (Seq<char>, int)| (m.0, JsonView::Int(m.1))))
}

/// The position of a Kafka message: the JSON object of its partition and
/// offset.
pub fn encode_kafka_pos(partition: i32, offset: i64) -> (r: Vec<u8>)
    ensures
        r@ == json_bytes(int_object(seq![("partition"@, partition as int), ("offset"@, offset as int)])),
{
    let members = vec![
        (String::from_str("partition"), JsonValue::Int(partition as i64)),
        (String::from_str("offset"), JsonValue::Int(offset)),
    ];
    let value = JsonValue::Object(members);
    proof {
        reveal_with_fuel(json_member_views, 3);
        assert(json_member_views(members@) =~= int_object(
            seq![("partition"@, partition as int), ("offset"@, offset as int)],
        )->Object_0);
    }
    json_to_vec(&value)
}

/// The position of an Iceberg row: the JSON object of its snapshot, file
/// index and row index.
pub fn iceberg_pos(snapshot_id: i64, file_index: u32, row_index: u64) -> (r: Position)
    ensures
        r@ == (
            PositionKind::IcebergRow,
            json_bytes(
                int_object(
                    seq![
                        ("snapshot_id"@, snapshot_id as int),
                        ("file_index"@, file_index as int),
                        ("row_index"@, row_index as int),
                    ],
                ),
            ),
        ),
{
    let members = vec![
        (String::from_str("snapshot_id"), JsonValue::Int(snapshot_id)),
        (String::from_str("file_index"), JsonValue::UInt(file_index as u64)),
        (String::from_str("row_index"), JsonValue::UInt(row_index)),
    ];
    let value = JsonValue::Object(members);
    proof {
        reveal_with_fuel(json_member_views, 4);
        assert(json_member_views(members@) =~= int_object(
            seq![
                ("snapshot_id"@, snapshot_id as int),
                ("file_index"@, file_index as int),
                ("row_index"@, row_index as int),
            ],
        )->Object_0);
    }
    Position { kind: PositionKind::IcebergRow, value: json_to_vec(&value) }
}

/// The columns an Iceberg read selects: every content and identity field,
/// once each, in the order of their UTF-8 bytes.
pub open spec fn is_selected_columns(
    r: Seq<Seq<char>>,
    content_fields: Seq<Seq<char>>,
    identity_fields: Seq<Seq<char>>,
) -> bool {
    &&& r.no_duplicates()
    &&& vstd::relations::sorted_by(r, crate::order::utf8_leq())
    &&& forall|x: Seq<char>| #[trigger] r.contains(x) <==> content_fields.contains(x)
        || identity_fields.contains(x)
}

/// The columns an Iceberg read selects for the content and identity fields.
pub fn selected_columns(content_fields: &[String], identity_fields: &[String]) -> (r: Vec<String>)
    ensures
        is_selected_columns(
            crate::text::string_views(r@),
            crate::text::string_views(content_fields@),
            crate::text::string_views(identity_fields@),
        ),
{
    broadcast use vstd::seq_lib::group_to_multiset_ensures, vstd::seq_lib::lemma_seq_contains_after_push;

    let ghost cv = crate::text::string_views(content_fields@);
    let ghost iv = crate::text::string_views(identity_fields@);
    let mut all: Vec<String> = crate::text::copy_strings(content_fields);
    let mut i: usize = 0;
    assert(iv.take(0) =~= Seq::<Seq<char>>::empty());
    while i < identity_fields.len()
        invariant
            0 <= i <= identity_fields@.len(),
            cv == crate::text::string_views(content_fields@),
            iv == crate::text::string_views(identity_fields@),
            forall|x: Seq<char>| #[trigger] crate::text::string_views(all@).contains(x)
                <==> cv.contains(x) || iv.take(i as int).contains(x),
        decreases identity_fields@.len() - i,
    {
        let ghost before = crate::text::string_views(all@);
        all.push(identity_fields[i].clone());
        assert(crate::text::string_views(all@) =~= before.push(iv[i as int]));
        assert(iv.take(i + 1) =~= iv.take(i as int).push(iv[i as int]));
        assert forall|x: Seq<char>| #[trigger] crate::text::string_views(all@).contains(x)
            <==> cv.contains(x) || iv.take(i + 1).contains(x) by {
            vstd::seq_lib::lemma_seq_contains_after_push(before, iv[i as int], x);
            vstd::seq_lib::lemma_seq_contains_after_push(iv.take(i as int), iv[i as int], x);
        }
        i = i + 1;
    }
    assert(iv.take(identity_fields@.len() as int) =~= iv);
    let sorted = crate::order::sort_strings(all.as_slice());
    let ghost sv = crate::text::string_views(sorted@);
    let ghost leq = crate::order::utf8_leq();
    proof {
        crate::order::lemma_utf8_leq_total();
        crate::text::string_views(all@).lemma_sort_by_ensures(leq);
        assert forall|x: Seq<char>| #[trigger] sv.contains(x) <==> crate::text::string_views(
            all@,
        ).contains(x) by {
            vstd::seq_lib::to_multiset_contains(sv, x);
            vstd::seq_lib::to_multiset_contains(crate::text::string_views(all@), x);
        }
    }
    let mut out: Vec<String> = Vec::new();
    let mut j: usize = 0;
    assert(sv.take(0) =~= Seq::<Seq<char>>::empty());
    while j < sorted.len()
        invariant
            0 <= j <= sorted@.len(),
            sv == crate::text::string_views(sorted@),
            leq == crate::order::utf8_leq(),
            vstd::relations::sorted_by(sv, leq),
            vstd::relations::total_ordering(leq),
            crate::text::string_views(out@).no_duplicates(),
            vstd::relations::sorted_by(crate::text::string_views(out@), leq),
            forall|x: Seq<char>| #[trigger] crate::text::string_views(out@).contains(x)
                <==> sv.take(j as int).contains(x),
            j > 0 ==> out@.len() > 0 && crate::text::string_views(out@).last() == sv[j - 1],
        decreases sorted@.len() - j,
    {
        let ghost ov = crate::text::string_views(out@);
        let ghost e = sv[j as int];
        assert(sv.take(j + 1) =~= sv.take(j as int).push(e));
        let dup = j > 0 && crate::text::str_eq(sorted[j].as_str(), sorted[j - 1].as_str());
        if !dup {
            out.push(sorted[j].clone());
            proof {
                let nv = crate::text::string_views(out@);
                assert(nv =~= ov.push(e));
                assert forall|a: int| 0 <= a < ov.len() implies ov[a] != e && leq(ov[a], e) by {
                    assert(ov.contains(ov[a]));
                    assert(sv.take(j as int).contains(ov[a]));
                    let k = choose|k: int| 0 <= k < j && sv.take(j as int)[k] == ov[a];
                    assert(sv[k] == ov[a]);
                    assert(leq(sv[k], sv[j - 1]));
                    assert(leq(sv[j - 1], e));
                    if ov[a] == e {
                        assert(leq(e, sv[j - 1]));
                    }
                }
                assert forall|a: int, b: int| 0 <= a < b < nv.len() implies #[trigger] leq(
                    nv[a],
                    nv[b],
                ) by {
                    assert(nv[a] == ov[a]);
                    if b < ov.len() {
                        assert(nv[b] == ov[b]);
                    }
                }
                assert forall|a: int, b: int|
                    0 <= a < nv.len() && 0 <= b < nv.len() && a != b implies nv[a] != nv[b] by {
                    if a < ov.len() && b < ov.len() {
                        assert(nv[a] == ov[a] && nv[b] == ov[b]);
                    }
                }
                assert forall|x: Seq<char>| #[trigger] nv.contains(x) <==> sv.take(j + 1).contains(
                    x,
                ) by {
                    vstd::seq_lib::lemma_seq_contains_after_push(ov, e, x);
                    vstd::seq_lib::lemma_seq_contains_after_push(sv.take(j as int), e, x);
                }
            }
        } else {
            proof {
                assert(e == sv[j - 1]);
                assert(sv.take(j as int)[j - 1] == e);
                assert(sv.take(j as int).contains(e));
                assert forall|x: Seq<char>| #[trigger] ov.contains(x) <==> sv.take(j + 1).contains(
                    x,
                ) by {
                    vstd::seq_lib::lemma_seq_contains_after_push(sv.take(j as int), e, x);
                }
            }
        }
        j = j + 1;
    }
    assert(sv.take(sorted@.len() as int) =~= sv);
    out
}

} // verus!
