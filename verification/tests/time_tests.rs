use asr_data::time::{DurationMs, TimeRange};

#[test]
fn ranges_overlap_symmetrically() {
    let a = TimeRange::new(DurationMs(0), DurationMs(10));
    let b = TimeRange::new(DurationMs(9), DurationMs(20));
    let c = TimeRange::new(DurationMs(10), DurationMs(20));
    assert!(a.overlaps(&b) && b.overlaps(&a));
    assert!(!a.overlaps(&c) && !c.overlaps(&a));
}

#[test]
fn ranges_are_half_open() {
    let a = TimeRange::new(DurationMs(5), DurationMs(8));
    assert_eq!(a.duration(), DurationMs(3));
    assert!(a.contains(DurationMs(5)));
    assert!(!a.contains(DurationMs(8)));
    assert_eq!(TimeRange::new(DurationMs(8), DurationMs(5)).duration(), DurationMs(0));
}
