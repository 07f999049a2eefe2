//! The audio database's rules: schema checks, query validation and the SQL
//! text and parameters of a query. Running the statements is left to the
//! caller that owns the connection.

use vstd::prelude::*;

use crate::chars::{append_chars, append_str, chars_of, decimal_chars, decimal_digits, string_from_chars};
use crate::time::DurationMs;

verus! {

/// The schema version this library writes and reads.
pub const SCHEMA_VERSION: i64 = 11;

/// The SQLite application id of an audio database ("VASR").
pub const APPLICATION_ID: i64 = 1447121746;

/// How many audios a query returns unless told otherwise.
pub const DEFAULT_QUERY_LIMIT: usize = 100;

/// The most audios one query may return.
pub const MAX_QUERY_LIMIT: usize = 10000;

/// Whether a database is opened for writing.
#[derive(Debug, Clone, Copy, PartialEq, Eq, Structural)]
pub enum AudioDbMode {
    ReadWrite,
    ReadOnly,
}

/// Summary of a database: schema version, audio count, total duration.
#[derive(Debug, Clone, Copy, PartialEq, Eq, Structural)]
pub struct AudioDbInfo {
    pub schema_version: i64,
    pub audios: usize,
    pub total_duration: DurationMs,
}

/// Why a database operation failed. Errors raised by the storage engine,
/// the file system or the encoders carry their message.
#[derive(Debug, Clone, PartialEq, Eq)]
pub enum AudioDbError {
    AlreadyExists { path: String },
    DatabaseNotFound { path: String },
    Io(String),
    Sqlite(String),
    Encode(String),
    Decode(String),
    Json(String),
    Validation(crate::doc::AudioValidationError),
    UnsupportedSchema { found: i64, expected: i64 },
    InvalidApplicationId { found: i64 },
    NotFound { audio_id: String },
    QueryLimitExceeded { limit: usize, max: usize },
    InvalidDurationRange,
    InvalidCreatedTimeRange,
    InvalidUpdatedTimeRange,
}

/// Checks the application id and schema version read from a database.
pub fn validate_schema(application_id: i64, version: i64) -> (result: Result<(), AudioDbError>)
    ensures
        application_id != APPLICATION_ID ==> result == Err::<(), AudioDbError>(
            AudioDbError::InvalidApplicationId { found: application_id },
        ),
        application_id == APPLICATION_ID && version != SCHEMA_VERSION ==> result == Err::<(), AudioDbError>(
            AudioDbError::UnsupportedSchema { found: version, expected: SCHEMA_VERSION },
        ),
        application_id == APPLICATION_ID && version == SCHEMA_VERSION ==> result is Ok,
{
    if application_id != APPLICATION_ID {
        return Err(AudioDbError::InvalidApplicationId { found: application_id });
    }
    if version != SCHEMA_VERSION {
        return Err(AudioDbError::UnsupportedSchema { found: version, expected: SCHEMA_VERSION });
    }
    Ok(())
}

/// What opening an existing file for initialization must do.
#[derive(Debug, Clone, Copy, PartialEq, Eq, Structural)]
pub enum InitializeStep {
    /// The file is empty: create the schema.
    CreateSchema,
    /// The file already has a schema: check it.
    ValidateSchema,
}

/// A database whose `user_version` is 0 has no schema yet.
pub fn initialize_step(user_version: i64) -> (step: InitializeStep)
    ensures
        step == if user_version == 0 { InitializeStep::CreateSchema } else { InitializeStep::ValidateSchema },
{
    if user_version != 0 {
        InitializeStep::ValidateSchema
    } else {
        InitializeStep::CreateSchema
    }
}

/// The statements that create an empty audio database.
pub open spec fn schema_sql_spec() -> Seq<char> {
    "PRAGMA application_id = 1447121746; PRAGMA user_version = 11; PRAGMA foreign_keys = ON; CREATE TABLE metadata (key TEXT PRIMARY KEY NOT NULL, value TEXT NOT NULL) STRICT; CREATE TABLE audios (audio_id TEXT PRIMARY KEY NOT NULL, metadata TEXT NOT NULL, duration_ms INTEGER, created_at_ms INTEGER NOT NULL, updated_at_ms INTEGER NOT NULL) STRICT; CREATE TABLE audio_sources (audio_id TEXT PRIMARY KEY NOT NULL REFERENCES audios(audio_id) ON DELETE CASCADE, source BLOB NOT NULL, info BLOB NOT NULL) STRICT; CREATE TABLE timelines (audio_id TEXT PRIMARY KEY NOT NULL REFERENCES audios(audio_id) ON DELETE CASCADE, timeline BLOB NOT NULL) STRICT; CREATE INDEX audios_duration ON audios(duration_ms); CREATE INDEX audios_created_at ON audios(created_at_ms); CREATE INDEX audios_updated_at ON audios(updated_at_ms);"@
}

/// The statements that create an empty audio database.
pub fn schema_sql() -> (sql: String)
    ensures
        sql@ == schema_sql_spec(),
{
    "PRAGMA application_id = 1447121746; PRAGMA user_version = 11; PRAGMA foreign_keys = ON; CREATE TABLE metadata (key TEXT PRIMARY KEY NOT NULL, value TEXT NOT NULL) STRICT; CREATE TABLE audios (audio_id TEXT PRIMARY KEY NOT NULL, metadata TEXT NOT NULL, duration_ms INTEGER, created_at_ms INTEGER NOT NULL, updated_at_ms INTEGER NOT NULL) STRICT; CREATE TABLE audio_sources (audio_id TEXT PRIMARY KEY NOT NULL REFERENCES audios(audio_id) ON DELETE CASCADE, source BLOB NOT NULL, info BLOB NOT NULL) STRICT; CREATE TABLE timelines (audio_id TEXT PRIMARY KEY NOT NULL REFERENCES audios(audio_id) ON DELETE CASCADE, timeline BLOB NOT NULL) STRICT; CREATE INDEX audios_duration ON audios(duration_ms); CREATE INDEX audios_created_at ON audios(created_at_ms); CREATE INDEX audios_updated_at ON audios(updated_at_ms);".to_owned()
}

/// A row count as a length, `usize::MAX` when it does not fit.
pub fn count_to_len(count: i64) -> (n: usize)
    ensures
        n == if 0 <= count && count <= usize::MAX { count as int } else { usize::MAX as int },
{
    if count < 0 {
        usize::MAX
    } else if (count as u64) > (usize::MAX as u64) {
        usize::MAX
    } else {
        count as usize
    }
}

/// A summed duration column as a duration, 0 when negative.
pub fn duration_from_sum(sum: i64) -> (d: DurationMs)
    ensures
        d.0 == if sum >= 0 { sum as int } else { 0 },
{
    if sum < 0 {
        DurationMs(0)
    } else {
        DurationMs(sum as u64)
    }
}

/// A duration as stored in the `duration_ms` column, `i64::MAX` when it
/// does not fit.
pub fn duration_column(duration: Option<DurationMs>) -> (column: Option<i64>)
    ensures
        column == match duration {
            Some(d) => Some(if d.0 <= i64::MAX { d.0 as i64 } else { i64::MAX }),
            None => None::<i64>,
        },
{
    match duration {
        Some(d) => Some(if d.0 <= i64::MAX as u64 { d.0 as i64 } else { i64::MAX }),
        None => None,
    }
}

/// A point in time as an offset from the Unix epoch: a whole number of
/// seconds and a sub-second number of nanoseconds, before or after it.
#[derive(Debug, Clone, Copy, PartialEq, Eq, Structural)]
pub struct QueryInstant {
    pub before_epoch: bool,
    pub secs: u64,
    pub nanos: u32,
}

impl QueryInstant {
    /// The nanoseconds are below one second.
    pub open spec fn wf(self) -> bool {
        self.nanos < 1_000_000_000
    }

    /// The signed offset from the epoch, in nanoseconds.
    pub open spec fn offset_nanos(self) -> int {
        let magnitude = self.secs * 1_000_000_000 + self.nanos;
        if self.before_epoch { -magnitude } else { magnitude }
    }

    /// The whole milliseconds of the offset's magnitude.
    pub open spec fn whole_millis(self) -> int {
        self.secs * 1000 + self.nanos / 1_000_000
    }
}

/// `x`, or `i64::MAX` when it does not fit.
pub open spec fn clamp_i64(x: int) -> i64 {
    if x > i64::MAX { i64::MAX } else { x as i64 }
}

/// The millisecond bound a query uses for an instant: after the epoch the
/// offset rounded up to a whole millisecond, before it the negated whole
/// milliseconds; `i64::MAX` in magnitude when it does not fit.
pub open spec fn boundary_millis(t: QueryInstant) -> i64 {
    if t.before_epoch {
        (-clamp_i64(t.whole_millis())) as i64
    } else {
        clamp_i64(t.whole_millis() + if t.nanos % 1_000_000 != 0 { 1int } else { 0int })
    }
}

/// The millisecond bound a query uses for an inclusive upper bound: the
/// offset rounded down to a whole millisecond (after the epoch the whole
/// milliseconds, before it the negated milliseconds rounded up);
/// `i64::MAX` in magnitude when it does not fit.
pub open spec fn upper_boundary_millis(t: QueryInstant) -> i64 {
    if t.before_epoch {
        (-clamp_i64(t.whole_millis() + if t.nanos % 1_000_000 != 0 { 1int } else { 0int })) as i64
    } else {
        clamp_i64(t.whole_millis())
    }
}

/// The whole milliseconds since the epoch, 0 before it and `i64::MAX` when
/// it does not fit.
pub open spec fn unix_millis(t: QueryInstant) -> i64 {
    if t.before_epoch { 0 } else { clamp_i64(t.whole_millis()) }
}

fn whole_millis(t: QueryInstant) -> (ms: u128)
    requires
        t.wf(),
    ensures
        ms == t.whole_millis(),
{
    (t.secs as u128) * 1000 + (t.nanos / 1_000_000) as u128
}

fn clamp_to_i64(x: u128) -> (c: i64)
    ensures
        c == clamp_i64(x as int),
{
    if x > i64::MAX as u128 {
        i64::MAX
    } else {
        x as i64
    }
}

/// The millisecond bound a query uses for an instant.
pub fn system_time_to_query_boundary_millis(t: QueryInstant) -> (ms: i64)
    requires
        t.wf(),
    ensures
        ms == boundary_millis(t),
{
    let whole = whole_millis(t);
    if t.before_epoch {
        -clamp_to_i64(whole)
    } else {
        let rounded = whole + if t.nanos % 1_000_000 != 0 { 1 } else { 0 };
        clamp_to_i64(rounded)
    }
}

/// The millisecond bound a query uses for an inclusive upper bound.
pub fn upper_query_boundary_millis(t: QueryInstant) -> (ms: i64)
    requires
        t.wf(),
    ensures
        ms == upper_boundary_millis(t),
{
    let whole = whole_millis(t);
    if t.before_epoch {
        let rounded = whole + if t.nanos % 1_000_000 != 0 { 1 } else { 0 };
        -clamp_to_i64(rounded)
    } else {
        clamp_to_i64(whole)
    }
}

/// The bounds select whole milliseconds exactly as the instants do: a
/// stamp `r` is at or after the lower bound of `t` exactly when the
/// instant `r` ms is at or after `t`, and at or before the upper bound
/// exactly when it is at or before `t` (while the bounds need no capping).
pub proof fn lemma_boundaries_are_inclusive(t: QueryInstant, r: int)
    requires
        t.wf(),
        t.whole_millis() + 1 <= i64::MAX,
    ensures
        r >= boundary_millis(t) <==> r * 1_000_000 >= t.offset_nanos(),
        r <= upper_boundary_millis(t) <==> r * 1_000_000 <= t.offset_nanos(),
{
    let w = t.whole_millis();
    let rem = t.nanos % 1_000_000;
    assert(t.secs * 1_000_000_000 + t.nanos == w * 1_000_000 + rem) by (nonlinear_arith)
        requires
            w == t.secs * 1000 + t.nanos / 1_000_000,
            rem == t.nanos % 1_000_000,
    ;
    assert(0 <= rem < 1_000_000);
    if t.before_epoch {
        assert(r >= -w <==> r * 1_000_000 >= -(w * 1_000_000 + rem)) by (nonlinear_arith)
            requires
                0 <= rem < 1_000_000,
                rem == 0 || rem > 0,
        ;
        assert(r <= -(w + if rem != 0 { 1int } else { 0int }) <==> r * 1_000_000 <= -(w * 1_000_000 + rem))
            by (nonlinear_arith)
            requires
                0 <= rem < 1_000_000,
        ;
    } else {
        assert(r >= w + if rem != 0 { 1int } else { 0int } <==> r * 1_000_000 >= w * 1_000_000 + rem)
            by (nonlinear_arith)
            requires
                0 <= rem < 1_000_000,
        ;
        assert(r <= w <==> r * 1_000_000 <= w * 1_000_000 + rem) by (nonlinear_arith)
            requires
                0 <= rem < 1_000_000,
        ;
    }
}

/// The whole milliseconds since the epoch of a clock reading.
pub fn now_unix_millis(t: QueryInstant) -> (ms: i64)
    requires
        t.wf(),
    ensures
        ms == unix_millis(t),
{
    if t.before_epoch {
        0
    } else {
        clamp_to_i64(whole_millis(t))
    }
}

/// Whether `a` is later than `b`.
pub fn instant_after(a: QueryInstant, b: QueryInstant) -> (later: bool)
    requires
        a.wf(),
        b.wf(),
    ensures
        later == (a.offset_nanos() > b.offset_nanos()),
{
    let ma = (a.secs as u128) * 1_000_000_000 + a.nanos as u128;
    let mb = (b.secs as u128) * 1_000_000_000 + b.nanos as u128;
    if a.before_epoch {
        if b.before_epoch {
            ma < mb
        } else {
            false
        }
    } else {
        if b.before_epoch {
            ma > 0 || mb > 0
        } else {
            ma > mb
        }
    }
}

/// A query over stored audios: a page of at most `limit` audios after the
/// `after` id, filtered by duration, creation and update time and
/// metadata values (given as JSON text, by key).
#[derive(Debug, Clone)]
pub struct AudioQuery {
    pub limit: usize,
    pub after: Option<String>,
    pub min_duration: Option<DurationMs>,
    pub max_duration: Option<DurationMs>,
    pub created_from: Option<QueryInstant>,
    pub created_until: Option<QueryInstant>,
    pub updated_from: Option<QueryInstant>,
    pub updated_until: Option<QueryInstant>,
    pub metadata: Vec<(String, String)>,
}

impl Default for AudioQuery {
    /// The first page of `DEFAULT_QUERY_LIMIT` audios, unfiltered.
    fn default() -> (q: Self)
        ensures
            q.limit == DEFAULT_QUERY_LIMIT,
            q.after is None,
            q.min_duration is None,
            q.max_duration is None,
            q.created_from is None,
            q.created_until is None,
            q.updated_from is None,
            q.updated_until is None,
            q.metadata@.len() == 0,
    {
        AudioQuery {
            limit: DEFAULT_QUERY_LIMIT,
            after: None,
            min_duration: None,
            max_duration: None,
            created_from: None,
            created_until: None,
            updated_from: None,
            updated_until: None,
            metadata: Vec::new(),
        }
    }
}

/// A statement parameter.
#[derive(Debug, Clone, PartialEq, Eq)]
pub enum SqlParam {
    Text(String),
    Integer(i64),
}

/// The SQL text of a query and its parameters, numbered `?1`, `?2`, ...
/// in order.
#[derive(Debug, Clone)]
pub struct QueryPlan {
    pub sql: String,
    pub parameters: Vec<SqlParam>,
}

/// The reference to parameter `n`: `?n`.
pub open spec fn param_ref(n: nat) -> Seq<char> {
    seq!['?'] + decimal_digits(n)
}

/// A duration as a query bound.
pub open spec fn duration_param(d: DurationMs) -> i64 {
    clamp_i64(d.0 as int)
}

/// The one-parameter filters of a query, in order, each as the text
/// before its parameter reference and the parameter.
pub open spec fn single_filters(q: AudioQuery) -> Seq<(Seq<char>, SqlParam)> {
    after_part(q) + min_duration_part(q) + max_duration_part(q) + created_from_part(q) + created_until_part(q) + updated_from_part(q) + updated_until_part(q)
}

/// One filter of a query, if set.
pub open spec fn after_part(q: AudioQuery) -> Seq<(Seq<char>, SqlParam)> {
    match q.after {
        Some(a) => seq![("audios.audio_id > "@, SqlParam::Text(a))],
        None => Seq::empty(),
    }
}

/// One filter of a query, if set.
pub open spec fn min_duration_part(q: AudioQuery) -> Seq<(Seq<char>, SqlParam)> {
    match q.min_duration {
        Some(d) => seq![("audios.duration_ms >= "@, SqlParam::Integer(duration_param(d)))],
        None => Seq::empty(),
    }
}

/// One filter of a query, if set.
pub open spec fn max_duration_part(q: AudioQuery) -> Seq<(Seq<char>, SqlParam)> {
    match q.max_duration {
        Some(d) => seq![("audios.duration_ms <= "@, SqlParam::Integer(duration_param(d)))],
        None => Seq::empty(),
    }
}

/// One filter of a query, if set.
pub open spec fn created_from_part(q: AudioQuery) -> Seq<(Seq<char>, SqlParam)> {
    match q.created_from {
        Some(t) => seq![("audios.created_at_ms >= "@, SqlParam::Integer(boundary_millis(t)))],
        None => Seq::empty(),
    }
}

/// One filter of a query, if set.
pub open spec fn created_until_part(q: AudioQuery) -> Seq<(Seq<char>, SqlParam)> {
    match q.created_until {
        Some(t) => seq![("audios.created_at_ms <= "@, SqlParam::Integer(upper_boundary_millis(t)))],
        None => Seq::empty(),
    }
}

/// One filter of a query, if set.
pub open spec fn updated_from_part(q: AudioQuery) -> Seq<(Seq<char>, SqlParam)> {
    match q.updated_from {
        Some(t) => seq![("audios.updated_at_ms >= "@, SqlParam::Integer(boundary_millis(t)))],
        None => Seq::empty(),
    }
}

/// One filter of a query, if set.
pub open spec fn updated_until_part(q: AudioQuery) -> Seq<(Seq<char>, SqlParam)> {
    match q.updated_until {
        Some(t) => seq![("audios.updated_at_ms <= "@, SqlParam::Integer(upper_boundary_millis(t)))],
        None => Seq::empty(),
    }
}

/// The condition that metadata `key` (parameter `k`) holds the JSON value
/// (parameter `v`).
pub open spec fn metadata_condition(k: Seq<char>, v: Seq<char>) -> Seq<char> {
    "EXISTS (SELECT 1 FROM json_each(audios.metadata) AS metadata_entry WHERE metadata_entry.key = "@ + k
        + " AND metadata_entry.type = json_type("@ + v + ", '$') AND metadata_entry.value IS json_extract("@ + v
        + ", '$'))"@
}

/// The conditions of a query, in order: one-parameter filters, then one
/// per metadata entry.
pub open spec fn query_conditions(q: AudioQuery) -> Seq<Seq<char>> {
    let singles = single_filters(q);
    let s = singles.len();
    Seq::new(singles.len(), |i: int| singles[i].0 + param_ref((i + 1) as nat)) + Seq::new(
        q.metadata@.len(),
        |j: int| metadata_condition(param_ref((s + 2 * j + 1) as nat), param_ref((s + 2 * j + 2) as nat)),
    )
}

/// The parameters of a query, in order.
pub open spec fn query_parameters(q: AudioQuery) -> Seq<SqlParam> {
    let singles = single_filters(q);
    singles.map_values(|f: (Seq<char>, SqlParam)| f.1) + metadata_parameters(q.metadata@) + seq![
        SqlParam::Integer(clamp_i64(q.limit as int)),
    ]
}

/// Each metadata entry's key and JSON value, as text parameters.
pub open spec fn metadata_parameters(entries: Seq<(String, String)>) -> Seq<SqlParam>
    decreases entries.len(),
{
    if entries.len() == 0 {
        Seq::empty()
    } else {
        metadata_parameters(entries.drop_last()) + seq![
            SqlParam::Text(entries.last().0),
            SqlParam::Text(entries.last().1),
        ]
    }
}

/// `parts` joined with `separator`.
pub open spec fn join(parts: Seq<Seq<char>>, separator: Seq<char>) -> Seq<char>
    decreases parts.len(),
{
    if parts.len() == 0 {
        Seq::empty()
    } else if parts.len() == 1 {
        parts[0]
    } else {
        join(parts.drop_last(), separator) + separator + parts.last()
    }
}

/// The rows a query reads, before its conditions.
pub open spec fn select_sql() -> Seq<char> {
    "SELECT audio_sources.source, audio_sources.info, timelines.timeline, audios.metadata, audios.audio_id FROM audios JOIN audio_sources USING (audio_id) JOIN timelines USING (audio_id)"@
}

/// The SQL text of a query.
pub open spec fn query_sql(q: AudioQuery) -> Seq<char> {
    let conditions = query_conditions(q);
    select_sql() + (if conditions.len() == 0 {
        Seq::empty()
    } else {
        " WHERE "@ + join(conditions, " AND "@)
    }) + " ORDER BY audios.audio_id LIMIT "@ + param_ref((conditions.len() + q.metadata@.len() + 1) as nat)
}

/// Whether `a` is later than `b` when both are given.
pub open spec fn reversed(a: Option<QueryInstant>, b: Option<QueryInstant>) -> bool {
    a matches Some(x) && b matches Some(y) && x.offset_nanos() > y.offset_nanos()
}

/// Whether every instant of the query is well formed.
pub open spec fn query_wf(q: AudioQuery) -> bool {
    &&& (q.created_from matches Some(t) ==> t.wf())
    &&& (q.created_until matches Some(t) ==> t.wf())
    &&& (q.updated_from matches Some(t) ==> t.wf())
    &&& (q.updated_until matches Some(t) ==> t.wf())
}

/// The character sequences of a list of character vectors.
pub open spec fn char_views(parts: Seq<Vec<char>>) -> Seq<Seq<char>> {
    parts.map_values(|v: Vec<char>| v@)
}

/// `parts` joined with `separator`.
fn join_chars(parts: &Vec<Vec<char>>, separator: &str) -> (out: Vec<char>)
    ensures
        out@ == join(char_views(parts@), separator@),
{
    let mut out: Vec<char> = Vec::new();
    let mut i: usize = 0;
    while i < parts.len()
        invariant
            i <= parts@.len(),
            out@ == join(char_views(parts@).take(i as int), separator@),
        decreases parts@.len() - i,
    {
        let ghost before = char_views(parts@).take(i as int);
        let ghost after = char_views(parts@).take(i + 1);
        proof {
            assert(after.drop_last() =~= before);
            assert(after.last() == parts@[i as int]@);
        }
        if i > 0 {
            append_str(&mut out, separator);
        } else {
            assert(after.len() == 1);
        }
        append_chars(&mut out, parts[i].as_slice());
        i = i + 1;
    }
    assert(char_views(parts@).take(parts@.len() as int) =~= char_views(parts@));
    out
}

/// The text of a one-parameter filter and its parameter.
pub open spec fn filter_views(filters: Seq<(&str, SqlParam)>) -> Seq<(Seq<char>, SqlParam)> {
    filters.map_values(|f: (&str, SqlParam)| (f.0@, f.1))
}

/// Whether a stored audio row passes a one-parameter filter as SQLite
/// evaluates it: the row has id `id`, duration column `duration` (`None`
/// for NULL, which no comparison admits) and creation and update stamps
/// `created` and `updated` in milliseconds.
pub open spec fn filter_admits(
    f: (Seq<char>, SqlParam),
    id: Seq<char>,
    duration: Option<int>,
    created: int,
    updated: int,
) -> bool {
    match f.1 {
        SqlParam::Text(a) => f.0 == "audios.audio_id > "@ && crate::ordered::text_lt(a@, id),
        SqlParam::Integer(v) => if f.0 == "audios.duration_ms >= "@ {
            (duration matches Some(x) && x >= v)
        } else if f.0 == "audios.duration_ms <= "@ {
            (duration matches Some(x) && x <= v)
        } else if f.0 == "audios.created_at_ms >= "@ {
            created >= v
        } else if f.0 == "audios.created_at_ms <= "@ {
            created <= v
        } else if f.0 == "audios.updated_at_ms >= "@ {
            updated >= v
        } else if f.0 == "audios.updated_at_ms <= "@ {
            updated <= v
        } else {
            false
        },
    }
}

/// Whether a stored audio row passes every filter of a list.
pub open spec fn admitted_by_all(
    filters: Seq<(Seq<char>, SqlParam)>,
    id: Seq<char>,
    duration: Option<int>,
    created: int,
    updated: int,
) -> bool {
    forall|i: int| 0 <= i < filters.len() ==> filter_admits(#[trigger] filters[i], id, duration, created, updated)
}

/// A planned query selects exactly the audios that satisfy its filters:
/// ids after `after`, durations at least `min_duration` and at most
/// `max_duration` (an unknown duration satisfies neither), and creation
/// and update instants within their inclusive ranges. This holds while the
/// bounds fit the columns' 64-bit integers.
pub proof fn lemma_planned_filters_select(
    q: AudioQuery,
    id: Seq<char>,
    duration: Option<int>,
    created: int,
    updated: int,
)
    requires
        query_wf(q),
        duration matches Some(x) ==> x <= i64::MAX,
        q.min_duration matches Some(d) ==> d.0 <= i64::MAX,
        q.created_from matches Some(t) ==> t.whole_millis() + 1 <= i64::MAX,
        q.created_until matches Some(t) ==> t.whole_millis() + 1 <= i64::MAX,
        q.updated_from matches Some(t) ==> t.whole_millis() + 1 <= i64::MAX,
        q.updated_until matches Some(t) ==> t.whole_millis() + 1 <= i64::MAX,
    ensures
        admitted_by_all(single_filters(q), id, duration, created, updated) <==> {
            &&& match q.after {
                Some(a) => crate::ordered::text_lt(a@, id),
                None => true,
            }
            &&& match q.min_duration {
                Some(d) => (duration matches Some(x) && x >= d.0),
                None => true,
            }
            &&& match q.max_duration {
                Some(d) => (duration matches Some(x) && x <= d.0),
                None => true,
            }
            &&& match q.created_from {
                Some(t) => created * 1_000_000 >= t.offset_nanos(),
                None => true,
            }
            &&& match q.created_until {
                Some(t) => created * 1_000_000 <= t.offset_nanos(),
                None => true,
            }
            &&& match q.updated_from {
                Some(t) => updated * 1_000_000 >= t.offset_nanos(),
                None => true,
            }
            &&& match q.updated_until {
                Some(t) => updated * 1_000_000 <= t.offset_nanos(),
                None => true,
            }
        },
{
    lemma_filter_texts_differ();
    let acc0 = after_part(q);
    let acc1 = acc0 + min_duration_part(q);
    let acc2 = acc1 + max_duration_part(q);
    let acc3 = acc2 + created_from_part(q);
    let acc4 = acc3 + created_until_part(q);
    let acc5 = acc4 + updated_from_part(q);
    lemma_admitted_by_concat(acc0, min_duration_part(q), id, duration, created, updated);
    lemma_admitted_by_concat(acc1, max_duration_part(q), id, duration, created, updated);
    lemma_admitted_by_concat(acc2, created_from_part(q), id, duration, created, updated);
    lemma_admitted_by_concat(acc3, created_until_part(q), id, duration, created, updated);
    lemma_admitted_by_concat(acc4, updated_from_part(q), id, duration, created, updated);
    lemma_admitted_by_concat(acc5, updated_until_part(q), id, duration, created, updated);
    assert(single_filters(q) == acc5 + updated_until_part(q));
    match q.created_from {
        Some(t) => lemma_boundaries_are_inclusive(t, created),
        None => {},
    }
    match q.created_until {
        Some(t) => lemma_boundaries_are_inclusive(t, created),
        None => {},
    }
    match q.updated_from {
        Some(t) => lemma_boundaries_are_inclusive(t, updated),
        None => {},
    }
    match q.updated_until {
        Some(t) => lemma_boundaries_are_inclusive(t, updated),
        None => {},
    }
}

proof fn lemma_admitted_by_concat(
    a: Seq<(Seq<char>, SqlParam)>,
    b: Seq<(Seq<char>, SqlParam)>,
    id: Seq<char>,
    duration: Option<int>,
    created: int,
    updated: int,
)
    ensures
        admitted_by_all(a + b, id, duration, created, updated) <==> admitted_by_all(a, id, duration, created, updated)
            && admitted_by_all(b, id, duration, created, updated),
        b.len() == 1 ==> (admitted_by_all(b, id, duration, created, updated) <==> filter_admits(
            b[0],
            id,
            duration,
            created,
            updated,
        )),
        a.len() == 1 ==> (admitted_by_all(a, id, duration, created, updated) <==> filter_admits(
            a[0],
            id,
            duration,
            created,
            updated,
        )),
{
    let ab = a + b;
    if admitted_by_all(ab, id, duration, created, updated) {
        assert forall|i: int| 0 <= i < a.len() implies filter_admits(#[trigger] a[i], id, duration, created, updated) by {
            assert(ab[i] == a[i]);
        }
        assert forall|i: int| 0 <= i < b.len() implies filter_admits(#[trigger] b[i], id, duration, created, updated) by {
            assert(ab[a.len() + i] == b[i]);
        }
    }
    if admitted_by_all(a, id, duration, created, updated) && admitted_by_all(b, id, duration, created, updated) {
        assert forall|i: int| 0 <= i < ab.len() implies filter_admits(#[trigger] ab[i], id, duration, created, updated) by {
            if i < a.len() {
                assert(ab[i] == a[i]);
            } else {
                assert(ab[i] == b[i - a.len()]);
            }
        }
    }
}

proof fn lemma_filter_texts_differ()
    ensures
        "audios.duration_ms >= "@ != "audios.duration_ms <= "@,
        "audios.duration_ms >= "@ != "audios.created_at_ms >= "@,
        "audios.duration_ms >= "@ != "audios.created_at_ms <= "@,
        "audios.duration_ms >= "@ != "audios.updated_at_ms >= "@,
        "audios.duration_ms >= "@ != "audios.updated_at_ms <= "@,
        "audios.duration_ms <= "@ != "audios.created_at_ms >= "@,
        "audios.duration_ms <= "@ != "audios.created_at_ms <= "@,
        "audios.duration_ms <= "@ != "audios.updated_at_ms >= "@,
        "audios.duration_ms <= "@ != "audios.updated_at_ms <= "@,
        "audios.created_at_ms >= "@ != "audios.created_at_ms <= "@,
        "audios.created_at_ms >= "@ != "audios.updated_at_ms >= "@,
        "audios.created_at_ms >= "@ != "audios.updated_at_ms <= "@,
        "audios.created_at_ms <= "@ != "audios.updated_at_ms >= "@,
        "audios.created_at_ms <= "@ != "audios.updated_at_ms <= "@,
        "audios.updated_at_ms >= "@ != "audios.updated_at_ms <= "@,
{
    reveal_strlit("audios.duration_ms >= ");
    reveal_strlit("audios.duration_ms <= ");
    reveal_strlit("audios.created_at_ms >= ");
    reveal_strlit("audios.created_at_ms <= ");
    reveal_strlit("audios.updated_at_ms >= ");
    reveal_strlit("audios.updated_at_ms <= ");
    assert("audios.duration_ms >= "@.len() == 22 && "audios.duration_ms <= "@.len() == 22);
    assert("audios.created_at_ms >= "@.len() == 24 && "audios.created_at_ms <= "@.len() == 24);
    assert("audios.updated_at_ms >= "@.len() == 24 && "audios.updated_at_ms <= "@.len() == 24);
    assert("audios.duration_ms >= "@[19] != "audios.duration_ms <= "@[19]);
    assert("audios.created_at_ms >= "@[21] != "audios.created_at_ms <= "@[21]);
    assert("audios.updated_at_ms >= "@[21] != "audios.updated_at_ms <= "@[21]);
    assert("audios.created_at_ms >= "@[7] != "audios.updated_at_ms >= "@[7]);
    assert("audios.created_at_ms >= "@[7] != "audios.updated_at_ms <= "@[7]);
    assert("audios.created_at_ms <= "@[7] != "audios.updated_at_ms >= "@[7]);
    assert("audios.created_at_ms <= "@[7] != "audios.updated_at_ms <= "@[7]);
}

fn duration_bound(d: DurationMs) -> (v: i64)
    ensures
        v == duration_param(d),
{
    if d.0 > i64::MAX as u64 {
        i64::MAX
    } else {
        d.0 as i64
    }
}

/// The one-parameter filters of a query.
#[verifier::rlimit(60)]
fn collect_single_filters(q: &AudioQuery) -> (filters: Vec<(&'static str, SqlParam)>)
    requires
        query_wf(*q),
    ensures
        filter_views(filters@) == single_filters(*q),
{
    let mut filters: Vec<(&'static str, SqlParam)> = Vec::new();
    let ghost mut expected: Seq<(Seq<char>, SqlParam)> = Seq::empty();
    match &q.after {
        Some(a) => {
            filters.push(("audios.audio_id > ", SqlParam::Text(a.clone())));
        },
        None => {},
    }
    proof {
        expected = after_part(*q);
        assert(filter_views(filters@) =~= expected);
    }
    match q.min_duration {
        Some(d) => {
            filters.push(("audios.duration_ms >= ", SqlParam::Integer(duration_bound(d))));
        },
        None => {},
    }
    proof {
        expected = expected + min_duration_part(*q);
        assert(filter_views(filters@) =~= expected);
    }
    match q.max_duration {
        Some(d) => {
            filters.push(("audios.duration_ms <= ", SqlParam::Integer(duration_bound(d))));
        },
        None => {},
    }
    proof {
        expected = expected + max_duration_part(*q);
        assert(filter_views(filters@) =~= expected);
    }
    match q.created_from {
        Some(t) => {
            filters.push(("audios.created_at_ms >= ", SqlParam::Integer(system_time_to_query_boundary_millis(t))));
        },
        None => {},
    }
    proof {
        expected = expected + created_from_part(*q);
        assert(filter_views(filters@) =~= expected);
    }
    match q.created_until {
        Some(t) => {
            filters.push(("audios.created_at_ms <= ", SqlParam::Integer(upper_query_boundary_millis(t))));
        },
        None => {},
    }
    proof {
        expected = expected + created_until_part(*q);
        assert(filter_views(filters@) =~= expected);
    }
    match q.updated_from {
        Some(t) => {
            filters.push(("audios.updated_at_ms >= ", SqlParam::Integer(system_time_to_query_boundary_millis(t))));
        },
        None => {},
    }
    proof {
        expected = expected + updated_from_part(*q);
        assert(filter_views(filters@) =~= expected);
    }
    match q.updated_until {
        Some(t) => {
            filters.push(("audios.updated_at_ms <= ", SqlParam::Integer(upper_query_boundary_millis(t))));
        },
        None => {},
    }
    proof {
        expected = expected + updated_until_part(*q);
        assert(filter_views(filters@) =~= expected);
        assert(expected =~= single_filters(*q));
    }
    filters
}

/// `?n` as characters.
fn param_ref_chars(n: usize) -> (r: Vec<char>)
    ensures
        r@ == param_ref(n as nat),
{
    let mut r: Vec<char> = Vec::new();
    r.push('?');
    let digits = decimal_chars(n as u64);
    append_chars(&mut r, digits.as_slice());
    r
}

/// The conditions and parameters of a query's filters, in order.
fn query_conditions_exec(q: &AudioQuery) -> (out: (Vec<Vec<char>>, Vec<SqlParam>))
    requires
        query_wf(*q),
        single_filters(*q).len() + 2 * q.metadata@.len() + 2 < usize::MAX,
    ensures
        char_views(out.0@) == query_conditions(*q),
        out.1@ == single_filters(*q).map_values(|f: (Seq<char>, SqlParam)| f.1) + metadata_parameters(q.metadata@),
{
    let filters = collect_single_filters(q);
    let ghost singles = single_filters(*q);
    let mut conditions: Vec<Vec<char>> = Vec::new();
    let mut parameters: Vec<SqlParam> = Vec::new();
    let mut i: usize = 0;
    while i < filters.len()
        invariant
            i <= filters@.len(),
            filter_views(filters@) == singles,
            singles == single_filters(*q),
            conditions@.len() == i,
            parameters@.len() == i,
            forall|k: int| 0 <= k < i ==> (#[trigger] conditions@[k])@ == singles[k].0 + param_ref((k + 1) as nat),
            parameters@ == singles.map_values(|f: (Seq<char>, SqlParam)| f.1).take(i as int),
        decreases filters@.len() - i,
    {
        let (prefix, param) = &filters[i];
        let mut condition = chars_of(prefix);
        let reference = param_ref_chars(i + 1);
        append_chars(&mut condition, reference.as_slice());
        assert(singles[i as int] == (prefix@, *param));
        conditions.push(condition);
        let p = match param {
            SqlParam::Text(t) => SqlParam::Text(t.clone()),
            SqlParam::Integer(v) => SqlParam::Integer(*v),
        };
        parameters.push(p);
        assert(parameters@ =~= singles.map_values(|f: (Seq<char>, SqlParam)| f.1).take(i + 1));
        i = i + 1;
    }
    assert(singles.map_values(|f: (Seq<char>, SqlParam)| f.1).take(filters@.len() as int) =~= singles.map_values(
        |f: (Seq<char>, SqlParam)| f.1,
    ));
    let base = filters.len();
    let mut j: usize = 0;
    while j < q.metadata.len()
        invariant
            j <= q.metadata@.len(),
            base == singles.len(),
            singles == single_filters(*q),
            singles.len() + 2 * q.metadata@.len() + 2 < usize::MAX,
            conditions@.len() == base + j,
            forall|k: int| 0 <= k < base ==> (#[trigger] conditions@[k])@ == singles[k].0 + param_ref((k + 1) as nat),
            forall|k: int|
                base <= k < base + j ==> (#[trigger] conditions@[k])@ == metadata_condition(
                    param_ref((base + 2 * (k - base) + 1) as nat),
                    param_ref((base + 2 * (k - base) + 2) as nat),
                ),
            parameters@ == singles.map_values(|f: (Seq<char>, SqlParam)| f.1) + metadata_parameters(q.metadata@.take(j as int)),
        decreases q.metadata@.len() - j,
    {
        let key_ref = param_ref_chars(base + 2 * j + 1);
        let value_ref = param_ref_chars(base + 2 * j + 2);
        let mut condition = chars_of(
            "EXISTS (SELECT 1 FROM json_each(audios.metadata) AS metadata_entry WHERE metadata_entry.key = ",
        );
        append_chars(&mut condition, key_ref.as_slice());
        append_str(&mut condition, " AND metadata_entry.type = json_type(");
        append_chars(&mut condition, value_ref.as_slice());
        append_str(&mut condition, ", '$') AND metadata_entry.value IS json_extract(");
        append_chars(&mut condition, value_ref.as_slice());
        append_str(&mut condition, ", '$'))");
        let ghost before = conditions@;
        conditions.push(condition);
        proof {
            assert(conditions@[(base + j) as int]@ == metadata_condition(
                param_ref((base + 2 * j + 1) as nat),
                param_ref((base + 2 * j + 2) as nat),
            ));
            assert forall|k: int|
                base <= k < base + j + 1 implies (#[trigger] conditions@[k])@ == metadata_condition(
                param_ref((base + 2 * (k - base) + 1) as nat),
                param_ref((base + 2 * (k - base) + 2) as nat),
            ) by {
                if k < base + j {
                    assert(conditions@[k] == before[k]);
                }
            }
            assert forall|k: int| 0 <= k < base implies (#[trigger] conditions@[k])@ == singles[k].0 + param_ref(
                (k + 1) as nat,
            ) by {
                assert(conditions@[k] == before[k]);
            }
        }
        parameters.push(SqlParam::Text(q.metadata[j].0.clone()));
        parameters.push(SqlParam::Text(q.metadata[j].1.clone()));
        proof {
            assert(q.metadata@.take(j + 1).drop_last() =~= q.metadata@.take(j as int));
            assert(q.metadata@.take(j + 1).last() == q.metadata@[j as int]);
        }
        j = j + 1;
    }
    assert(q.metadata@.take(q.metadata@.len() as int) =~= q.metadata@);
    assert(char_views(conditions@) =~= query_conditions(*q));
    (conditions, parameters)
}

/// Checks a query and writes its SQL text and parameters: a limit over
/// `MAX_QUERY_LIMIT` is an error, a zero limit needs no statement, and
/// reversed duration, creation or update ranges are errors.
pub fn plan_query(q: &AudioQuery) -> (result: Result<Option<QueryPlan>, AudioDbError>)
    requires
        query_wf(*q),
        2 * q.metadata@.len() + 10 < usize::MAX,
    ensures
        q.limit > MAX_QUERY_LIMIT ==> result == Err::<Option<QueryPlan>, AudioDbError>(
            AudioDbError::QueryLimitExceeded { limit: q.limit, max: MAX_QUERY_LIMIT },
        ),
        q.limit <= MAX_QUERY_LIMIT && q.limit == 0 ==> result matches Ok(None),
        q.limit <= MAX_QUERY_LIMIT && q.limit > 0 ==> {
            if q.min_duration matches Some(a) && q.max_duration matches Some(b) && a.0 > b.0 {
                result == Err::<Option<QueryPlan>, AudioDbError>(AudioDbError::InvalidDurationRange)
            } else if reversed(q.created_from, q.created_until) {
                result == Err::<Option<QueryPlan>, AudioDbError>(AudioDbError::InvalidCreatedTimeRange)
            } else if reversed(q.updated_from, q.updated_until) {
                result == Err::<Option<QueryPlan>, AudioDbError>(AudioDbError::InvalidUpdatedTimeRange)
            } else {
                result matches Ok(Some(plan)) && plan.sql@ == query_sql(*q) && plan.parameters@ == query_parameters(*q)
            }
        },
{
    if q.limit > MAX_QUERY_LIMIT {
        return Err(AudioDbError::QueryLimitExceeded { limit: q.limit, max: MAX_QUERY_LIMIT });
    }
    if q.limit == 0 {
        return Ok(None);
    }
    match (q.min_duration, q.max_duration) {
        (Some(a), Some(b)) => {
            if a.0 > b.0 {
                return Err(AudioDbError::InvalidDurationRange);
            }
        },
        _ => {},
    }
    match (q.created_from, q.created_until) {
        (Some(a), Some(b)) => {
            if instant_after(a, b) {
                return Err(AudioDbError::InvalidCreatedTimeRange);
            }
        },
        _ => {},
    }
    match (q.updated_from, q.updated_until) {
        (Some(a), Some(b)) => {
            if instant_after(a, b) {
                return Err(AudioDbError::InvalidUpdatedTimeRange);
            }
        },
        _ => {},
    }
    proof {
        assert(single_filters(*q).len() <= 7);
    }
    let (conditions, mut parameters) = query_conditions_exec(q);
    let mut sql = chars_of(
        "SELECT audio_sources.source, audio_sources.info, timelines.timeline, audios.metadata, audios.audio_id FROM audios JOIN audio_sources USING (audio_id) JOIN timelines USING (audio_id)",
    );
    if conditions.len() > 0 {
        append_str(&mut sql, " WHERE ");
        let joined = join_chars(&conditions, " AND ");
        append_chars(&mut sql, joined.as_slice());
    }
    append_str(&mut sql, " ORDER BY audios.audio_id LIMIT ");
    let limit_ref = param_ref_chars(conditions.len() + q.metadata.len() + 1);
    append_chars(&mut sql, limit_ref.as_slice());
    let limit: i64 = q.limit as i64;
    parameters.push(SqlParam::Integer(limit));
    proof {
        let conds = query_conditions(*q);
        assert(conds.len() == conditions@.len());
        if conditions@.len() == 0 {
            assert(sql@ =~= query_sql(*q));
        } else {
            assert(sql@ =~= query_sql(*q));
        }
        assert(parameters@ =~= query_parameters(*q));
    }
    Ok(Some(QueryPlan { sql: string_from_chars(sql.as_slice()), parameters }))
}

/// Checks an audio before it is written and gives its `duration_ms`
/// column value.
pub fn prepare_write(audio: &crate::doc::Audio) -> (result: Result<Option<i64>, AudioDbError>)
    ensures
        match audio.validation_problem() {
            Some(e) => result matches Err(AudioDbError::Validation(r)) && crate::doc::same_error(r, e),
            None => result == Ok::<Option<i64>, AudioDbError>(
                Some(clamp_i64(audio.expected_duration().0 as int)),
            ),
        },
{
    match audio.validate() {
        Err(e) => Err(AudioDbError::Validation(e)),
        Ok(()) => {
            let duration = audio.timeline_duration();
            Ok(duration_column(duration))
        },
    }
}

/// Whether an update changed anything: the audio row, its source row or
/// its timeline row.
pub fn update_changed(audio_changed: bool, source_changed: bool, timeline_changed: bool) -> (changed: bool)
    ensures
        changed == (audio_changed || source_changed || timeline_changed),
{
    audio_changed || source_changed || timeline_changed
}

} // verus!
