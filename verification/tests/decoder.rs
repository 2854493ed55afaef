//! The metric dump decoder: shapes, classification, histogram expansion.

use cmt::asok::{Json, Sample};
use cmt::Error;

fn obj(fields: Vec<(&str, Json)>) -> Json {
    Json::Obj(fields.into_iter().map(|(k, v)| (k.to_string(), v)).collect())
}

fn s(v: &str) -> Json {
    Json::Str(v.to_string())
}

fn fl(v: f64) -> Json {
    Json::Float(v.to_bits(), format!("{}", v))
}

fn dump(elems: Vec<Json>) -> Json {
    obj(vec![("metrics", Json::Arr(elems))])
}

fn metric(name: &str, fields: Vec<(&str, Json)>) -> Json {
    obj(vec![(name, obj(fields))])
}

#[test]
fn scalar_integer_observation() {
    let d = dump(vec![metric(
        "LBA_alloc_extents",
        vec![("shard", s("0")), ("value", Json::Int(86))],
    )]);
    let mut sample = Sample::from_dump(&d).unwrap();
    assert_eq!(sample.i.len(), 1);
    assert_eq!(sample.f.len(), 0);
    assert_eq!(sample.i[0].value, 86);
    assert_eq!(sample.i[0].unified_name(), "LBA_alloc_extents&shard=0");
}

#[test]
fn ratio_name_forces_float() {
    let d = dump(vec![metric("cache_hit_ratio", vec![("value", Json::Int(1))])]);
    let sample = Sample::from_dump(&d).unwrap();
    assert_eq!(sample.i.len(), 0);
    assert_eq!(sample.f.len(), 1);
    assert_eq!(sample.f[0].value, 1.0f64.to_bits());
    assert_eq!(f64::from_bits(sample.f[0].value), 1.0);
}

#[test]
fn non_integral_value_is_float() {
    let d = dump(vec![metric("load", vec![("value", fl(2.5))])]);
    let sample = Sample::from_dump(&d).unwrap();
    assert_eq!(sample.f.len(), 1);
    assert_eq!(f64::from_bits(sample.f[0].value), 2.5);
}

#[test]
fn histogram_expands_into_count_sum_and_buckets() {
    let hist = obj(vec![
        ("sum", Json::Int(10)),
        ("count", Json::Int(5)),
        (
            "buckets",
            Json::Arr(vec![
                obj(vec![("le", s("1")), ("count", Json::Int(2))]),
                obj(vec![("le", s("+Inf")), ("count", Json::Int(5))]),
            ]),
        ),
    ]);
    let d = dump(vec![metric("foo", vec![("value", hist)])]);
    let mut sample = Sample::from_dump(&d).unwrap();
    assert_eq!(sample.i.len(), 3);
    assert_eq!(sample.f.len(), 1);
    assert_eq!(sample.i[0].unified_name(), "foo");
    assert_eq!(sample.i[0].value, 5);
    assert_eq!(sample.i[1].unified_name(), "foo&bucket=0&le=1");
    assert_eq!(sample.i[1].value, 2);
    assert_eq!(sample.i[2].unified_name(), "foo&bucket=1&le=+Inf");
    assert_eq!(sample.i[2].value, 5);
    assert_eq!(sample.f[0].unified_name(), "foo");
    assert_eq!(f64::from_bits(sample.f[0].value), 10.0);
}

#[test]
fn histogram_integer_le_renders_without_decimal_point() {
    let hist = obj(vec![
        ("sum", fl(0.5)),
        ("count", Json::Int(1)),
        (
            "buckets",
            Json::Arr(vec![obj(vec![("le", Json::Int(32)), ("count", Json::Int(1))])]),
        ),
    ]);
    let d = dump(vec![metric("lat", vec![("value", hist)])]);
    let mut sample = Sample::from_dump(&d).unwrap();
    assert_eq!(sample.i[1].unified_name(), "lat&bucket=0&le=32");
    assert_eq!(f64::from_bits(sample.f[0].value), 0.5);
}

#[test]
fn two_field_element_is_malformed() {
    let elem = obj(vec![
        ("a", obj(vec![("value", Json::Int(1))])),
        ("b", obj(vec![("value", Json::Int(2))])),
    ]);
    let r = Sample::from_dump(&dump(vec![elem]));
    assert_eq!(r.unwrap_err(), Error::MalformedMetrics);
}

#[test]
fn missing_metrics_array_is_malformed() {
    assert_eq!(
        Sample::from_dump(&obj(vec![("other", Json::Int(1))])).unwrap_err(),
        Error::MalformedMetrics
    );
    assert_eq!(
        Sample::from_dump(&Json::Int(3)).unwrap_err(),
        Error::MalformedMetrics
    );
    assert_eq!(
        Sample::from_dump(&obj(vec![("metrics", Json::Int(1))])).unwrap_err(),
        Error::MalformedMetrics
    );
}

#[test]
fn missing_value_entry_is_malformed() {
    let d = dump(vec![metric("m", vec![("shard", s("0"))])]);
    assert_eq!(Sample::from_dump(&d).unwrap_err(), Error::MalformedMetrics);
}

#[test]
fn bool_value_is_unexpected_type() {
    let d = dump(vec![metric("m", vec![("value", Json::Bool(true))])]);
    assert_eq!(Sample::from_dump(&d).unwrap_err(), Error::UnexpectedValueType);
}

#[test]
fn non_string_label_is_malformed() {
    let d = dump(vec![metric("m", vec![("shard", Json::Int(0)), ("value", Json::Int(1))])]);
    assert_eq!(Sample::from_dump(&d).unwrap_err(), Error::MalformedMetrics);
}

#[test]
fn device_id_keeps_first_byte_restringified() {
    let d = dump(vec![metric(
        "m",
        vec![("device_id", s("sda")), ("value", Json::Int(1))],
    )]);
    let mut sample = Sample::from_dump(&d).unwrap();
    assert_eq!(sample.i[0].unified_name(), "m&device_id=115");
}

#[test]
fn whole_sample_aborts_on_one_bad_element() {
    let good = metric("ok", vec![("value", Json::Int(1))]);
    let bad = metric("bad", vec![("value", Json::Null)]);
    let r = Sample::from_dump(&dump(vec![good, bad]));
    assert_eq!(r.unwrap_err(), Error::UnexpectedValueType);
}
