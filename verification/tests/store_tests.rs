//! The schema-locked store: locking, drift, selection, widening.

use cmt::asok::{Json, Sample};
use cmt::store::WatchResultPerOSD;
use cmt::Error;

fn obj(fields: Vec<(&str, Json)>) -> Json {
    Json::Obj(fields.into_iter().map(|(k, v)| (k.to_string(), v)).collect())
}

fn metric(name: &str, value: Json) -> Json {
    obj(vec![(name, obj(vec![("value", value)]))])
}

fn dump(elems: Vec<Json>) -> Json {
    obj(vec![("metrics", Json::Arr(elems))])
}

fn sample(pairs: &[(&str, i64)]) -> Sample {
    let elems = pairs
        .iter()
        .map(|(n, v)| metric(n, Json::Int(*v)))
        .collect::<Vec<_>>();
    Sample::from_dump(&dump(elems)).unwrap()
}

#[test]
fn first_push_locks_schema_and_appends() {
    let mut st = WatchResultPerOSD::new();
    st.push(0, &sample(&[("a", 1), ("b", 2)])).unwrap();
    st.push(1, &sample(&[("a", 3), ("b", 4)])).unwrap();
    assert_eq!(st.timestamp, vec![0, 1]);
    assert_eq!(st.i.len(), 2);
    assert_eq!(st.i[0].value, vec![1, 3]);
    assert_eq!(st.i[1].value, vec![2, 4]);
}

#[test]
fn dropped_key_is_schema_drift_and_history_stays() {
    let mut st = WatchResultPerOSD::new();
    st.push(0, &sample(&[("a", 1), ("b", 2)])).unwrap();
    let r = st.push(1, &sample(&[("a", 3)]));
    assert_eq!(r.unwrap_err(), Error::SchemaDrift);
    assert_eq!(st.timestamp, vec![0]);
    assert_eq!(st.i[0].value, vec![1]);
    assert_eq!(st.i[1].value, vec![2]);
    let cols = st.select("a").unwrap();
    assert_eq!(cols.len(), 1);
    assert_eq!(cols[0].value.len(), 1);
}

#[test]
fn reordered_keys_are_schema_drift() {
    let mut st = WatchResultPerOSD::new();
    st.push(0, &sample(&[("a", 1), ("b", 2)])).unwrap();
    let r = st.push(1, &sample(&[("b", 4), ("a", 3)]));
    assert_eq!(r.unwrap_err(), Error::SchemaDrift);
}

#[test]
fn select_widens_integers_exactly_and_keeps_floats() {
    let mut st = WatchResultPerOSD::new();
    let elems = vec![
        metric("reads", Json::Int(3)),
        metric("hit_ratio", Json::Int(1)),
    ];
    let s = Sample::from_dump(&dump(elems)).unwrap();
    st.push(0, &s).unwrap();
    let cols = st.select(".*").unwrap();
    assert_eq!(cols.len(), 2);
    assert_eq!(cols[0].name, "reads");
    assert_eq!(f64::from_bits(cols[0].value[0]), 3.0);
    assert_eq!(cols[1].name, "hit_ratio");
    assert_eq!(f64::from_bits(cols[1].value[0]), 1.0);
}

#[test]
fn select_order_is_ascending_ordinal() {
    let mut st = WatchResultPerOSD::new();
    st.push(0, &sample(&[("zz", 1), ("aa", 2)])).unwrap();
    let cols = st.select("^(zz|aa)$").unwrap();
    assert_eq!(cols[0].name, "zz");
    assert_eq!(cols[1].name, "aa");
}

#[test]
fn select_no_match_and_bad_pattern() {
    let mut st = WatchResultPerOSD::new();
    st.push(0, &sample(&[("a", 1)])).unwrap();
    assert_eq!(st.select("nothing").unwrap_err(), Error::NoMatch);
    assert_eq!(st.select("(unclosed").unwrap_err(), Error::InvalidPattern);
}

#[test]
fn histogram_sum_shadows_count_in_the_index() {
    let hist = obj(vec![
        ("sum", Json::Int(10)),
        ("count", Json::Int(5)),
        (
            "buckets",
            Json::Arr(vec![obj(vec![
                ("le", Json::Str("1".to_string())),
                ("count", Json::Int(2)),
            ])]),
        ),
    ]);
    let s = Sample::from_dump(&dump(vec![obj(vec![(
        "foo",
        obj(vec![("value", hist)]),
    )])]))
    .unwrap();
    let mut st = WatchResultPerOSD::new();
    st.push(0, &s).unwrap();
    let cols = st.select("^foo$").unwrap();
    assert_eq!(cols.len(), 1);
    assert_eq!(f64::from_bits(cols[0].value[0]), 10.0);
}

#[test]
fn matched_lists_indices_per_kind() {
    let s = Sample::from_dump(&dump(vec![
        metric("cache_reads", Json::Int(1)),
        metric("disk_reads", Json::Int(2)),
        metric("read_ratio", Json::Int(1)),
    ]))
    .unwrap();
    let m = cmt::pattern::Matcher::new("read").unwrap();
    let (ii, fi) = s.matched(&m);
    assert_eq!(ii, vec![0, 1]);
    assert_eq!(fi, vec![0]);
}
