use asr_data::db::{count_to_len, duration_column, duration_from_sum, schema_sql, update_changed};
use asr_data::time::DurationMs;

#[test]
fn column_conversions_clamp() {
    assert_eq!(count_to_len(-1), usize::MAX);
    assert_eq!(count_to_len(7), 7);
    assert_eq!(duration_from_sum(-5), DurationMs(0));
    assert_eq!(duration_from_sum(5), DurationMs(5));
    assert_eq!(duration_column(Some(DurationMs(u64::MAX))), Some(i64::MAX));
    assert_eq!(duration_column(None), None);
}

#[test]
fn schema_and_change_tracking() {
    assert!(schema_sql().contains("CREATE TABLE audios"));
    assert!(update_changed(false, false, true));
    assert!(!update_changed(false, false, false));
}

use asr_data::db::{plan_query, upper_query_boundary_millis, system_time_to_query_boundary_millis, AudioQuery, QueryInstant, SqlParam};

#[test]
fn time_bounds_are_inclusive() {
    let whole = QueryInstant { before_epoch: false, secs: 5, nanos: 0 };
    let partial = QueryInstant { before_epoch: false, secs: 5, nanos: 300_000 };
    assert_eq!(upper_query_boundary_millis(whole), 5000);
    assert_eq!(upper_query_boundary_millis(partial), 5000);
    assert_eq!(system_time_to_query_boundary_millis(partial), 5001);
    let before = QueryInstant { before_epoch: true, secs: 0, nanos: 2_500_000 };
    assert_eq!(upper_query_boundary_millis(before), -3);
    assert_eq!(system_time_to_query_boundary_millis(before), -2);

    let query = AudioQuery { created_until: Some(whole), updated_until: Some(partial), ..AudioQuery::default() };
    let plan = plan_query(&query).unwrap().unwrap();
    assert!(plan.sql.contains("audios.created_at_ms <= ?"));
    assert!(plan.sql.contains("audios.updated_at_ms <= ?"));
    assert!(!plan.sql.contains("_at_ms < ?"));
    assert!(plan.parameters.iter().filter(|p| matches!(p, SqlParam::Integer(5000))).count() == 2);
}
