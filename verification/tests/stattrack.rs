use bezirke::{log_req, take_thousands, RequestCounter};

#[test]
fn log_req_counts_each_request() {
    let mut counter = RequestCounter::new();
    assert_eq!(counter.count(), 0);
    log_req(&mut counter);
    log_req(&mut counter);
    log_req(&mut counter);
    assert_eq!(counter.count(), 3);
}

#[test]
fn take_thousands_reports_and_resets() {
    let mut counter = RequestCounter::new();
    for _ in 0..2999 {
        log_req(&mut counter);
    }
    assert_eq!(take_thousands(&mut counter), 2);
    assert_eq!(counter.count(), 0);
    assert_eq!(take_thousands(&mut counter), 0);
}

#[test]
fn report_after_logs_law_on_values() {
    let mut counter = RequestCounter::new();
    for _ in 0..1000 {
        log_req(&mut counter);
    }
    assert_eq!(take_thousands(&mut counter), 1);
    for _ in 0..999 {
        log_req(&mut counter);
    }
    assert_eq!(take_thousands(&mut counter), 0);
}

#[test]
fn logs_compose_on_values() {
    let mut a = RequestCounter::new();
    for _ in 0..3 {
        log_req(&mut a);
    }
    for _ in 0..4 {
        log_req(&mut a);
    }
    let mut b = RequestCounter::new();
    for _ in 0..7 {
        log_req(&mut b);
    }
    assert_eq!(a.count(), b.count());
    assert_eq!(a.count(), 7);
}
