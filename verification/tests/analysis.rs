//! End to end: ticks, ratio windows, undefined ratios filtered.

use cmt::asok::{Json, Sample};
use cmt::plot::{finite_only, pair_windows, trans_conflict, trans_windows};
use cmt::store::WatchResultPerOSD;
use cmt::watcher::{osd_name, should_sample, Watcher};

fn obj(fields: Vec<(&str, Json)>) -> Json {
    Json::Obj(fields.into_iter().map(|(k, v)| (k.to_string(), v)).collect())
}

fn counters(inv: i64, com: i64) -> Sample {
    let elems = vec![
        obj(vec![(
            "cache_trans_invalidated",
            obj(vec![("value", Json::Int(inv))]),
        )]),
        obj(vec![(
            "cache_trans_committed",
            obj(vec![("value", Json::Int(com))]),
        )]),
    ];
    Sample::from_dump(&obj(vec![("metrics", Json::Arr(elems))])).unwrap()
}

fn ratio(w: &cmt::plot::RatioWindow) -> f64 {
    (f64::from_bits(w.cur_num) - f64::from_bits(w.prev_num))
        / (f64::from_bits(w.cur_den) - f64::from_bits(w.prev_den))
}

#[test]
fn two_ticks_yield_one_ratio_sample() {
    let mut st = WatchResultPerOSD::new();
    st.push(0, &counters(0, 0)).unwrap();
    st.push(1, &counters(4, 10)).unwrap();
    let ws = trans_windows(&st).unwrap();
    assert_eq!(ws.len(), 1);
    assert_eq!(ws[0].len(), 1);
    assert_eq!(ratio(&ws[0][0]), 0.4);
}

#[test]
fn unchanged_committed_yields_undefined_filtered_ratio() {
    let mut st = WatchResultPerOSD::new();
    st.push(0, &counters(0, 0)).unwrap();
    st.push(1, &counters(4, 10)).unwrap();
    st.push(2, &counters(4, 10)).unwrap();
    let ws = trans_windows(&st).unwrap();
    assert_eq!(ws[0].len(), 2);
    let ratios: Vec<u64> = ws[0].iter().map(|w| ratio(w).to_bits()).collect();
    assert!(f64::from_bits(ratios[1]).is_nan());
    let kept = finite_only(&ratios);
    assert_eq!(kept.len(), 1);
    assert_eq!(f64::from_bits(kept[0]), 0.4);
}

#[test]
fn trans_conflict_reports_per_target() {
    let mut st = WatchResultPerOSD::new();
    st.push(0, &counters(0, 0)).unwrap();
    st.push(1, &counters(4, 10)).unwrap();
    let metrics = vec![("osd.0".to_string(), st)];
    let out = trans_conflict(&metrics, false).unwrap();
    assert_eq!(out.len(), 1);
    assert_eq!(out[0].0, "osd.0");
    assert_eq!(ratio(&out[0].1[0][0]), 0.4);
}

#[test]
fn trans_conflict_propagates_missing_counters() {
    let mut st = WatchResultPerOSD::new();
    let s = Sample::from_dump(&obj(vec![(
        "metrics",
        Json::Arr(vec![obj(vec![(
            "unrelated",
            obj(vec![("value", Json::Int(1))]),
        )])]),
    )]))
    .unwrap();
    st.push(0, &s).unwrap();
    let metrics = vec![("osd.0".to_string(), st)];
    assert_eq!(trans_conflict(&metrics, false).unwrap_err(), cmt::Error::NoMatch);
}

#[test]
fn pair_windows_pairs_adjacent_ticks() {
    let a: Vec<u64> = vec![1.0f64.to_bits(), 2.0f64.to_bits(), 3.0f64.to_bits()];
    let b: Vec<u64> = vec![5.0f64.to_bits(), 6.0f64.to_bits()];
    let w = pair_windows(&a, &b);
    assert_eq!(w.len(), 1);
    assert_eq!(f64::from_bits(w[0].cur_num), 2.0);
    assert_eq!(f64::from_bits(w[0].prev_den), 5.0);
}

#[test]
fn osd_names_come_from_the_socket_file_name() {
    assert_eq!(osd_name("/var/run/ceph/osd.3.asok"), "osd.3");
    assert_eq!(osd_name("osd.11.asok"), "osd.11");
    assert_eq!(osd_name("plain"), "plain");
}

#[test]
fn watcher_records_per_target() {
    let paths = vec!["/run/osd.0.asok".to_string(), "/run/osd.1.asok".to_string()];
    let mut w = Watcher::new(&paths);
    assert_eq!(w.asoks.len(), 2);
    assert_eq!(w.asoks[0].0, "osd.0");
    assert_eq!(w.asoks[1].1.path, "/run/osd.1.asok");
    w.record_at(0, 7, &counters(1, 2)).unwrap();
    assert_eq!(w.result[0].1.timestamp, vec![7]);
    assert_eq!(w.result[1].1.timestamp.len(), 0);
    let r = w.record_at(0, 8, &counters(1, 2));
    assert!(r.is_ok());
}

#[test]
fn sampling_fires_on_interval_multiples() {
    assert!(should_sample(0, 15));
    assert!(!should_sample(1, 15));
    assert!(should_sample(30, 15));
}

#[test]
fn frame_length_reads_big_endian() {
    assert_eq!(cmt::asok::frame_length(0, 0, 1, 2), 258);
    assert_eq!(
        cmt::asok::frame_length(0xde, 0xad, 0xbe, 0xef),
        u32::from_be_bytes([0xde, 0xad, 0xbe, 0xef])
    );
}
