use std::cell::RefCell;
use std::rc::Rc;
use std::sync::Arc;

use udcp::clock::{same_text, utc_now};
use udcp::metrics::{envelope, Metric, MetricLayer, SrttMetric, TraceRecorder};
use udcp::stats::{self, SrttRecorder, StatsLayer, StatsRecorder, WindowStatsRecorder};

#[test]
fn trace_recorder_sorts_fields() {
    let mut t = TraceRecorder::default();
    t.record_int("seq", 1);
    t.record_int("seq", 2);
    t.record_int("rseq", 1);
    t.record_int("anticipation", 3);
    t.record_int("timeout", 4);
    t.record_int("sent", 1466);
    t.record_int("srtt", 10);
    t.record_str("seq", "ignored");
    assert_eq!(t.sent, vec![1, 2]);
    assert_eq!(t.timestamps_sent.len(), 2);
    assert_eq!(t.acks, vec![1]);
    assert_eq!(t.timestamps_ack.len(), 1);
    assert_eq!(t.anticip, vec![3]);
    assert_eq!(t.timestamps_anticip.len(), 1);
    assert_eq!(t.to, vec![4]);
    assert_eq!(t.timestamps_to.len(), 1);
    let t0 = t.timestamps_sent[0].unwrap();
    let t1 = t.timestamps_sent[1].unwrap();
    assert!(t0.nanos < 1_000_000_000);
    assert!((t0.secs, t0.nanos) <= (t1.secs, t1.nanos));
    // Recent: after 2020-01-01.
    assert!(t0.secs > 1_577_836_800);
}

#[test]
fn values_are_truncated_to_the_field_width() {
    let mut t = TraceRecorder::default();
    t.record_int("seq", (1i128 << 32) + 3);
    t.record_int("rseq", -1);
    assert_eq!(t.sent, vec![3]);
    assert_eq!(t.acks, vec![u32::MAX]);
    let mut s = SrttMetric::default();
    s.record_int("srtt", 250);
    s.record_int("srtt", -2);
    s.record_int("rseq", 7);
    assert_eq!(s.values, vec![250, u64::MAX - 1]);
    assert_eq!(s.timestamps.len(), 2);
}

#[test]
fn metric_layer_shares_its_metric() {
    let layer = MetricLayer::<SrttMetric>::new();
    let a = layer.metric();
    let b = layer.metric();
    assert!(Arc::ptr_eq(&a, &b));
    a.lock().unwrap().record_int("srtt", 5);
    assert_eq!(b.lock().unwrap().values, vec![5]);
}

#[test]
fn stats_recorders() {
    let mut t = stats::TraceRecorder::default();
    t.record_int("rseq", 12);
    t.record_int("lost", 13);
    t.record_int("lost", 14);
    t.record_int("seq", 15);
    assert_eq!(t.acks, vec![12]);
    assert_eq!(t.ack_timestamps.len(), 1);
    assert_eq!(t.losses, vec![13, 14]);
    assert_eq!(t.lost_timestamps.len(), 2);
    assert!(t.frames.is_empty() && t.frame_timestamps.is_empty());
    let mut s = SrttRecorder::default();
    s.record_int("srtt", 99);
    s.record_int("seq", 1);
    assert_eq!(s.values, vec![99]);
}

#[test]
fn stats_layer_feeds_the_shared_recorder() {
    let rec = Rc::new(RefCell::new(SrttRecorder::default()));
    let layer = StatsLayer::new(rec.clone());
    let handle = layer.recorder();
    assert!(Rc::ptr_eq(&handle, &rec));
    handle.borrow_mut().record_int("srtt", 3);
    assert_eq!(rec.borrow().values, vec![3]);
}

#[test]
fn envelope_marks_new_maxima() {
    assert_eq!(envelope(&[3, 1, 5, 5, 7, 2]), vec![0, 2, 4]);
    assert_eq!(envelope(&[0, 0, 1]), vec![2]);
    assert_eq!(envelope(&[]), Vec::<usize>::new());
    assert_eq!(envelope(&[4, 3, 2]), vec![0]);
}

#[test]
fn same_text_compares_strings() {
    assert!(same_text("srtt", "srtt"));
    assert!(!same_text("srtt", "srt"));
    assert!(!same_text("rseq", "lost"));
    assert!(same_text("", ""));
    assert!(same_text("été", "été"));
}

#[test]
fn clock_reads_current_time() {
    let t = utc_now().unwrap();
    let c = chrono::Utc::now();
    assert!(t.nanos < 1_000_000_000);
    assert!((c.timestamp() - t.secs).abs() <= 2);
}

#[test]
fn window_stats_keep_window_lengths() {
    let mut w = WindowStatsRecorder::default();
    w.record_int("window_len", 12);
    w.record_int("seq", 3);
    w.record_int("window_len", (1i128 << 64) + 5);
    w.record_str("message", "hello");
    assert_eq!(w.values, vec![12, 5]);
    assert!(w.next.is_empty());
}
