use size_check::progress::ProgressCounter;

#[test]
fn counting_and_finishing() {
    let mut p = ProgressCounter::new(3);
    assert_eq!(p.pos, 0);
    p.inc();
    p.inc();
    assert_eq!(p.pos, 2);
    // Whatever was counted, finishing reaches the complete state.
    p.finish();
    assert_eq!(p.pos, 3);
    assert_eq!(p.total, 3);
}

#[test]
fn finish_on_overcounted_total() {
    let mut p = ProgressCounter::new(1);
    p.inc();
    p.inc();
    p.finish();
    assert_eq!(p.pos, p.total);
}
