//! Decoding one admin-channel metric dump into typed observations.
//!
//! A dump is one JSON document `{ "metrics": [ { "<name>": { ...labels,
//! "value": ... } }, ... ] }`. Each array element contributes one scalar
//! observation, or — when its `value` entry is itself an object holding
//! `sum`, `count` and `buckets` — one float sum, one integer count and
//! one integer observation per bucket, the bucket ones labeled with
//! their index and upper bound.
//!
//! The decoder works on the library's own JSON tree. The caller that
//! reads the channel parses the raw bytes into this tree; a non-integral
//! number carries both its bit pattern and the decimal rendering fixed
//! at parse time, since formatting a float is host work.

use vstd::prelude::*;
use crate::Error;
use crate::floatbits::{f64_bits_of_i64, widen_i64};
use crate::metric::{
    Metric, label_views, labels_sorted, lbl_insert, encode_spec, encode_key, insert_label,
};
use crate::pattern::{Matcher, regex_match};
use crate::text::{
    dec_str, dec_str_signed, has_substr, contains_sub, str_eq_str, u64_dec, i64_dec,
};

verus! {

/// One JSON value, as the decoder sees it.
#[derive(Debug)]
pub enum Json {
    Null,
    Bool(bool),
    /// A number the wire holds as an integer.
    Int(i64),
    /// A non-integral number: its IEEE 754 bit pattern and its decimal
    /// rendering, both fixed where the document was parsed.
    Float(u64, String),
    Str(String),
    Arr(Vec<Json>),
    /// An object's fields, in the order the parser delivers them (one
    /// entry per key).
    Obj(Vec<(String, Json)>),
}

/// The first binding of `key` in an object's field list.
pub open spec fn obj_lookup(fields: Seq<(String, Json)>, key: Seq<char>) -> Option<Json>
    decreases fields.len(),
{
    if fields.len() == 0 {
        None
    } else if fields[0].0@ == key {
        Some(fields[0].1)
    } else {
        obj_lookup(fields.drop_first(), key)
    }
}

/// Looks a key up in an object's field list.
pub fn obj_get<'a>(fields: &'a Vec<(String, Json)>, key: &str) -> (r: Option<&'a Json>)
    ensures
        match r {
            Some(j) => obj_lookup(fields@, key@) == Some(*j),
            None => obj_lookup(fields@, key@) is None,
        },
{
    let n = fields.len();
    let mut i: usize = 0;
    proof {
        assert(fields@.skip(0) =~= fields@);
    }
    while i < n
        invariant
            i <= n,
            n == fields@.len(),
            obj_lookup(fields@, key@) == obj_lookup(fields@.skip(i as int), key@),
        decreases n - i,
    {
        proof {
            assert(fields@.skip(i as int)[0] == fields@[i as int]);
            assert(fields@.skip(i as int).drop_first() =~= fields@.skip(i + 1));
        }
        if str_eq_str(fields[i].0.as_str(), key) {
            return Some(&fields[i].1);
        }
        i += 1;
    }
    proof {
        assert(fields@.skip(n as int).len() == 0);
    }
    None
}

/// The first UTF-8 byte of the character `c`.
pub open spec fn utf8_first_byte(c: char) -> u8 {
    let cp = c as int;
    if cp < 0x80 {
        cp as u8
    } else if cp < 0x800 {
        (0xc0 + cp / 0x40) as u8
    } else if cp < 0x10000 {
        (0xe0 + cp / 0x1000) as u8
    } else {
        (0xf0 + cp / 0x40000) as u8
    }
}

/// Computes the first UTF-8 byte of a character.
pub fn utf8_first_byte_exec(c: char) -> (b: u8)
    ensures
        b == utf8_first_byte(c),
{
    let cp = c as u32;
    if cp < 0x80 {
        cp as u8
    } else if cp < 0x800 {
        (0xc0 + cp / 0x40) as u8
    } else if cp < 0x10000 {
        (0xe0 + cp / 0x1000) as u8
    } else {
        proof {
            assert(cp <= 0x10ffff);
        }
        (0xf0 + cp / 0x40000) as u8
    }
}

/// The text a label contributes: its string value, except that a
/// `device_id` is narrowed to its first byte, re-rendered in decimal —
/// a fixed decoder policy required by the upstream encoding.
pub open spec fn label_value_text(key: Seq<char>, s: Seq<char>) -> Seq<char> {
    if key == "device_id"@ && s.len() > 0 {
        dec_str(utf8_first_byte(s[0]) as nat)
    } else {
        s
    }
}

/// The label map of one metric's field list: every field but `value`,
/// processed in order (a later duplicate key wins), each value required
/// to be a string, an empty `device_id` rejected.
pub open spec fn labels_of(fields: Seq<(String, Json)>) -> Result<
    Seq<(Seq<char>, Seq<char>)>,
    Error,
>
    decreases fields.len(),
{
    if fields.len() == 0 {
        Ok(Seq::empty())
    } else {
        match labels_of(fields.drop_last()) {
            Err(e) => Err(e),
            Ok(acc) => {
                let k = fields.last().0;
                match fields.last().1 {
                    Json::Str(s) => {
                        if k@ == "value"@ {
                            Ok(acc)
                        } else if k@ == "device_id"@ && s@.len() == 0 {
                            Err(Error::MalformedMetrics)
                        } else {
                            Ok(lbl_insert(acc, k@, label_value_text(k@, s@)))
                        }
                    },
                    _ => {
                        if k@ == "value"@ {
                            Ok(acc)
                        } else {
                            Err(Error::MalformedMetrics)
                        }
                    },
                }
            },
        }
    }
}

/// An error in a field prefix decides the whole field list.
pub proof fn lemma_labels_of_err(fields: Seq<(String, Json)>, i: int)
    requires
        0 <= i <= fields.len(),
        labels_of(fields.take(i)) is Err,
    ensures
        labels_of(fields) == labels_of(fields.take(i)),
    decreases fields.len() - i,
{
    if i == fields.len() {
        assert(fields.take(i) =~= fields);
    } else {
        assert(fields.take(i + 1).drop_last() =~= fields.take(i));
        assert(labels_of(fields.take(i + 1)) == labels_of(fields.take(i)));
        lemma_labels_of_err(fields, i + 1);
    }
}

/// The length of one admin-channel reply frame, read from its four
/// big-endian prefix bytes.
pub fn frame_length(b0: u8, b1: u8, b2: u8, b3: u8) -> (n: u32)
    ensures
        n == b0 * 0x1000000 + b1 * 0x10000 + b2 * 0x100 + b3,
{
    (b0 as u32) * 0x1000000 + (b1 as u32) * 0x10000 + (b2 as u32) * 0x100 + (b3 as u32)
}

/// The mathematical view of one observation: name, ordered labels, and
/// a value (`i64` for integer observations, `u64` float bits for float
/// ones).
pub struct ObsV<V> {
    pub name: Seq<char>,
    pub labels: Seq<(Seq<char>, Seq<char>)>,
    pub value: V,
}

/// The observation a metric denotes.
pub open spec fn obs_of<V>(m: Metric<V>) -> ObsV<V> {
    ObsV { name: m.name@, labels: label_views(m.labels@), value: m.value }
}

/// The unified key token an observation encodes to.
pub open spec fn obs_key<V>(o: ObsV<V>) -> Seq<char> {
    encode_spec(o.name, o.labels)
}

/// The bit pattern of a histogram's `sum` entry.
pub open spec fn hist_sum(h: Seq<(String, Json)>) -> Result<u64, Error> {
    match obj_lookup(h, "sum"@) {
        None => Err(Error::MalformedMetrics),
        Some(Json::Int(n)) => Ok(f64_bits_of_i64(n)),
        Some(Json::Float(b, _)) => Ok(b),
        Some(_) => Err(Error::UnexpectedValueType),
    }
}

/// A histogram's `count` entry, an integer.
pub open spec fn hist_count(h: Seq<(String, Json)>) -> Result<i64, Error> {
    match obj_lookup(h, "count"@) {
        None => Err(Error::MalformedMetrics),
        Some(Json::Int(n)) => Ok(n),
        Some(_) => Err(Error::UnexpectedValueType),
    }
}

/// The `le` bound of one bucket as label text: an integer bound renders
/// without a decimal point, a float bound keeps its parse-time
/// rendering, a string bound (`"+Inf"`) passes through.
pub open spec fn bucket_le_text(j: Json) -> Option<Seq<char>> {
    match j {
        Json::Int(n) => Some(dec_str_signed(n as int)),
        Json::Float(_, t) => Some(t@),
        Json::Str(s) => Some(s@),
        _ => None,
    }
}

/// The integer observations of a bucket array: one per bucket, labeled
/// with the bucket's position and its `le` bound, valued by its count.
pub open spec fn bucket_obs(
    name: Seq<char>,
    ls: Seq<(Seq<char>, Seq<char>)>,
    arr: Seq<Json>,
) -> Result<Seq<ObsV<i64>>, Error>
    decreases arr.len(),
{
    if arr.len() == 0 {
        Ok(Seq::empty())
    } else {
        match bucket_obs(name, ls, arr.drop_last()) {
            Err(e) => Err(e),
            Ok(acc) => match arr.last() {
                Json::Obj(b) => match obj_lookup(b@, "le"@) {
                    None => Err(Error::MalformedMetrics),
                    Some(lv) => match bucket_le_text(lv) {
                        None => Err(Error::UnexpectedValueType),
                        Some(lt) => match obj_lookup(b@, "count"@) {
                            None => Err(Error::MalformedMetrics),
                            Some(Json::Int(c)) => Ok(
                                acc.push(
                                    ObsV {
                                        name,
                                        labels: lbl_insert(
                                            lbl_insert(
                                                ls,
                                                "bucket"@,
                                                dec_str((arr.len() - 1) as nat),
                                            ),
                                            "le"@,
                                            lt,
                                        ),
                                        value: c,
                                    },
                                ),
                            ),
                            Some(_) => Err(Error::UnexpectedValueType),
                        },
                    },
                },
                _ => Err(Error::MalformedMetrics),
            },
        }
    }
}

/// An error in a bucket prefix decides the whole array.
pub proof fn lemma_bucket_obs_err(
    name: Seq<char>,
    ls: Seq<(Seq<char>, Seq<char>)>,
    arr: Seq<Json>,
    i: int,
)
    requires
        0 <= i <= arr.len(),
        bucket_obs(name, ls, arr.take(i)) is Err,
    ensures
        bucket_obs(name, ls, arr) == bucket_obs(name, ls, arr.take(i)),
    decreases arr.len() - i,
{
    if i == arr.len() {
        assert(arr.take(i) =~= arr);
    } else {
        assert(arr.take(i + 1).drop_last() =~= arr.take(i));
        assert(bucket_obs(name, ls, arr.take(i + 1)) == bucket_obs(name, ls, arr.take(i)));
        lemma_bucket_obs_err(name, ls, arr, i + 1);
    }
}

/// All observations of one metric: the labels, then the `value` entry
/// classified. An integral number is an integer observation unless the
/// name contains `ratio`, which forces a float; a non-integral number
/// is a float; an object is a histogram, expanded into count, sum and
/// buckets; anything else is refused.
pub open spec fn decode_metric(name: Seq<char>, fields: Seq<(String, Json)>) -> Result<
    (Seq<ObsV<i64>>, Seq<ObsV<u64>>),
    Error,
> {
    match labels_of(fields) {
        Err(e) => Err(e),
        Ok(ls) => match obj_lookup(fields, "value"@) {
            None => Err(Error::MalformedMetrics),
            Some(v) => match v {
                Json::Int(n) => if has_substr(name, "ratio"@) {
                    Ok(
                        (
                            Seq::empty(),
                            seq![ObsV { name, labels: ls, value: f64_bits_of_i64(n) }],
                        ),
                    )
                } else {
                    Ok((seq![ObsV { name, labels: ls, value: n }], Seq::empty()))
                },
                Json::Float(b, _) => Ok(
                    (Seq::empty(), seq![ObsV { name, labels: ls, value: b }]),
                ),
                Json::Obj(h) => match hist_sum(h@) {
                    Err(e) => Err(e),
                    Ok(sumb) => match hist_count(h@) {
                        Err(e) => Err(e),
                        Ok(cnt) => match obj_lookup(h@, "buckets"@) {
                            None => Err(Error::MalformedMetrics),
                            Some(Json::Arr(bs)) => match bucket_obs(name, ls, bs@) {
                                Err(e) => Err(e),
                                Ok(bobs) => Ok(
                                    (
                                        seq![ObsV { name, labels: ls, value: cnt }] + bobs,
                                        seq![ObsV { name, labels: ls, value: sumb }],
                                    ),
                                ),
                            },
                            Some(_) => Err(Error::UnexpectedValueType),
                        },
                    },
                },
                _ => Err(Error::UnexpectedValueType),
            },
        },
    }
}

/// One metrics-array element's object: it must have exactly one field,
/// the metric's name, whose value is the object of labels and value.
pub open spec fn decode_obj(e: Seq<(String, Json)>) -> Result<
    (Seq<ObsV<i64>>, Seq<ObsV<u64>>),
    Error,
> {
    if e.len() != 1 {
        Err(Error::MalformedMetrics)
    } else {
        match e[0].1 {
            Json::Obj(fields) => decode_metric(e[0].0@, fields@),
            _ => Err(Error::MalformedMetrics),
        }
    }
}

/// One metrics-array element, which must be an object.
pub open spec fn decode_element(j: Json) -> Result<(Seq<ObsV<i64>>, Seq<ObsV<u64>>), Error> {
    match j {
        Json::Obj(e) => decode_obj(e@),
        _ => Err(Error::MalformedMetrics),
    }
}

/// All elements of the metrics array, observations concatenated in
/// order; the first failing element decides.
pub open spec fn decode_elements(elems: Seq<Json>) -> Result<
    (Seq<ObsV<i64>>, Seq<ObsV<u64>>),
    Error,
>
    decreases elems.len(),
{
    if elems.len() == 0 {
        Ok((Seq::empty(), Seq::empty()))
    } else {
        match decode_elements(elems.drop_last()) {
            Err(e) => Err(e),
            Ok(acc) => match decode_element(elems.last()) {
                Err(e) => Err(e),
                Ok(o) => Ok((acc.0 + o.0, acc.1 + o.1)),
            },
        }
    }
}

/// An error in an element prefix decides the whole array.
pub proof fn lemma_decode_elements_err(elems: Seq<Json>, i: int)
    requires
        0 <= i <= elems.len(),
        decode_elements(elems.take(i)) is Err,
    ensures
        decode_elements(elems) == decode_elements(elems.take(i)),
    decreases elems.len() - i,
{
    if i == elems.len() {
        assert(elems.take(i) =~= elems);
    } else {
        assert(elems.take(i + 1).drop_last() =~= elems.take(i));
        assert(decode_elements(elems.take(i + 1)) == decode_elements(elems.take(i)));
        lemma_decode_elements_err(elems, i + 1);
    }
}

/// The whole dump: a JSON object whose `metrics` field is the array of
/// metric elements.
pub open spec fn decode_dump(doc: Json) -> Result<(Seq<ObsV<i64>>, Seq<ObsV<u64>>), Error> {
    match doc {
        Json::Obj(top) => match obj_lookup(top@, "metrics"@) {
            Some(Json::Arr(es)) => decode_elements(es@),
            Some(_) => Err(Error::MalformedMetrics),
            None => Err(Error::MalformedMetrics),
        },
        _ => Err(Error::MalformedMetrics),
    }
}

/// One decoded sample: the integer and float observations of one dump,
/// in decoding order.
#[derive(Debug, Clone)]
pub struct Sample {
    pub i: Vec<Metric<i64>>,
    pub f: Vec<Metric<u64>>,
}

impl Sample {
    /// The views of the integer observations.
    pub open spec fn iv(&self) -> Seq<ObsV<i64>> {
        self.i@.map_values(|m: Metric<i64>| obs_of(m))
    }

    /// The views of the float observations.
    pub open spec fn fv(&self) -> Seq<ObsV<u64>> {
        self.f@.map_values(|m: Metric<u64>| obs_of(m))
    }

    /// Every carried metric is well-formed.
    pub open spec fn wf(&self) -> bool {
        &&& forall|k: int| 0 <= k < self.i@.len() ==> (#[trigger] self.i@[k]).wf()
        &&& forall|k: int| 0 <= k < self.f@.len() ==> (#[trigger] self.f@[k]).wf()
    }

    /// An empty sample.
    pub fn new() -> (s: Sample)
        ensures
            s.wf(),
            s.iv() == Seq::<ObsV<i64>>::empty(),
            s.fv() == Seq::<ObsV<u64>>::empty(),
    {
        let s = Sample { i: Vec::new(), f: Vec::new() };
        proof {
            assert(s.iv() =~= Seq::<ObsV<i64>>::empty());
            assert(s.fv() =~= Seq::<ObsV<u64>>::empty());
        }
        s
    }

    /// Decodes one metrics-array element (its single-field object) and
    /// appends the observations it carries; on an error nothing is
    /// appended and the error says what was wrong with the element.
    #[verifier::loop_isolation(false)]
    pub fn parse_json(&mut self, json: &Vec<(String, Json)>) -> (r: Result<(), Error>)
        requires
            old(self).wf(),
        ensures
            final(self).wf(),
            match r {
                Ok(_) => {
                    &&& decode_obj(json@) is Ok
                    &&& final(self).iv() == old(self).iv() + decode_obj(json@)->Ok_0.0
                    &&& final(self).fv() == old(self).fv() + decode_obj(json@)->Ok_0.1
                },
                Err(e) => decode_obj(json@) == Err::<(Seq<ObsV<i64>>, Seq<ObsV<u64>>), Error>(e)
                    && *final(self) == *old(self),
            },
    {
        if json.len() != 1 {
            return Err(Error::MalformedMetrics);
        }
        let name: &String = &json[0].0;
        let fields: &Vec<(String, Json)> = match &json[0].1 {
            Json::Obj(f) => f,
            _ => { return Err(Error::MalformedMetrics) },
        };
        let nf = fields.len();
        let mut labels: Vec<(String, String)> = Vec::new();
        let mut i: usize = 0;
        proof {
            assert(fields@.take(0) =~= Seq::<(String, Json)>::empty());
            assert(label_views(labels@) =~= Seq::<(Seq<char>, Seq<char>)>::empty());
        }
        while i < nf
            invariant
                i <= nf,
                nf == fields@.len(),
                labels_sorted(label_views(labels@)),
                labels_of(fields@.take(i as int)) == Ok::<Seq<(Seq<char>, Seq<char>)>, Error>(
                    label_views(labels@),
                ),
            decreases nf - i,
        {
            proof {
                assert(fields@.take(i + 1).drop_last() =~= fields@.take(i as int));
                assert(fields@.take(i + 1).last() == fields@[i as int]);
            }
            let k: &String = &fields[i].0;
            if str_eq_str(k.as_str(), "value") {
            } else {
                match &fields[i].1 {
                    Json::Str(s) => {
                        if str_eq_str(k.as_str(), "device_id") {
                            if s.as_str().is_empty() {
                                proof {
                                    lemma_labels_of_err(fields@, i + 1);
                                }
                                return Err(Error::MalformedMetrics);
                            }
                            let c = s.as_str().get_char(0);
                            let b = utf8_first_byte_exec(c);
                            let text = u64_dec(b as u64);
                            insert_label(&mut labels, k.clone(), text);
                        } else {
                            insert_label(&mut labels, k.clone(), s.clone());
                        }
                    },
                    _ => {
                        proof {
                            lemma_labels_of_err(fields@, i + 1);
                        }
                        return Err(Error::MalformedMetrics);
                    },
                }
            }
            i += 1;
        }
        proof {
            assert(fields@.take(nf as int) =~= fields@);
        }
        let ghost ls = label_views(labels@);
        let vj: &Json = match obj_get(fields, "value") {
            Some(j) => j,
            None => { return Err(Error::MalformedMetrics) },
        };
        let mut ints: Vec<Metric<i64>> = Vec::new();
        let mut floats: Vec<Metric<u64>> = Vec::new();
        match vj {
            Json::Int(n) => {
                if contains_sub(name.as_str(), "ratio") {
                    floats.push(
                        Metric {
                            name: name.clone(),
                            labels,
                            unified_name: String::new(),
                            value: widen_i64(*n),
                        },
                    );
                } else {
                    ints.push(
                        Metric {
                            name: name.clone(),
                            labels,
                            unified_name: String::new(),
                            value: *n,
                        },
                    );
                }
            },
            Json::Float(b, _) => {
                floats.push(
                    Metric { name: name.clone(), labels, unified_name: String::new(), value: *b },
                );
            },
            Json::Obj(h) => {
                let sumb: u64 = match obj_get(h, "sum") {
                    None => { return Err(Error::MalformedMetrics) },
                    Some(Json::Int(n)) => widen_i64(*n),
                    Some(Json::Float(b, _)) => *b,
                    Some(_) => { return Err(Error::UnexpectedValueType) },
                };
                proof {
                    assert(hist_sum(h@) == Ok::<u64, Error>(sumb));
                }
                let cnt: i64 = match obj_get(h, "count") {
                    None => { return Err(Error::MalformedMetrics) },
                    Some(Json::Int(n)) => *n,
                    Some(_) => { return Err(Error::UnexpectedValueType) },
                };
                proof {
                    assert(hist_count(h@) == Ok::<i64, Error>(cnt));
                }
                let bs: &Vec<Json> = match obj_get(h, "buckets") {
                    None => { return Err(Error::MalformedMetrics) },
                    Some(Json::Arr(a)) => a,
                    Some(_) => { return Err(Error::UnexpectedValueType) },
                };
                floats.push(
                    Metric {
                        name: name.clone(),
                        labels: clone_labels(&labels),
                        unified_name: String::new(),
                        value: sumb,
                    },
                );
                ints.push(
                    Metric {
                        name: name.clone(),
                        labels: clone_labels(&labels),
                        unified_name: String::new(),
                        value: cnt,
                    },
                );
                let nb = bs.len();
                let mut bucket_ms: Vec<Metric<i64>> = Vec::new();
                let mut j: usize = 0;
                proof {
                    assert(bs@.take(0) =~= Seq::<Json>::empty());
                    assert(bucket_ms@.map_values(|m: Metric<i64>| obs_of(m)) =~= Seq::<
                        ObsV<i64>,
                    >::empty());
                }
                while j < nb
                    invariant
                        j <= nb,
                        nb == bs@.len(),
                        labels_sorted(ls),
                        ls == label_views(labels@),
                        bucket_obs(name@, ls, bs@.take(j as int)) == Ok::<Seq<ObsV<i64>>, Error>(
                            bucket_ms@.map_values(|m: Metric<i64>| obs_of(m)),
                        ),
                        forall|q: int|
                            0 <= q < bucket_ms@.len() ==> (#[trigger] bucket_ms@[q]).wf()
                                && bucket_ms@[q].unified_name@.len() == 0,
                    decreases nb - j,
                {
                    proof {
                        assert(bs@.take(j + 1).drop_last() =~= bs@.take(j as int));
                        assert(bs@.take(j + 1).last() == bs@[j as int]);
                    }
                    match &bs[j] {
                        Json::Obj(b) => {
                            let lv: &Json = match obj_get(b, "le") {
                                Some(x) => x,
                                None => {
                                    proof {
                                        lemma_bucket_obs_err(name@, ls, bs@, j + 1);
                                    }
                                    return Err(Error::MalformedMetrics);
                                },
                            };
                            let le_text: String = match lv {
                                Json::Int(n) => i64_dec(*n),
                                Json::Float(_, t) => t.clone(),
                                Json::Str(s) => s.clone(),
                                _ => {
                                    proof {
                                        lemma_bucket_obs_err(name@, ls, bs@, j + 1);
                                    }
                                    return Err(Error::UnexpectedValueType);
                                },
                            };
                            let c: i64 = match obj_get(b, "count") {
                                Some(Json::Int(n)) => *n,
                                Some(_) => {
                                    proof {
                                        lemma_bucket_obs_err(name@, ls, bs@, j + 1);
                                    }
                                    return Err(Error::UnexpectedValueType);
                                },
                                None => {
                                    proof {
                                        lemma_bucket_obs_err(name@, ls, bs@, j + 1);
                                    }
                                    return Err(Error::MalformedMetrics);
                                },
                            };
                            let mut bl = clone_labels(&labels);
                            insert_label(&mut bl, String::from_str("bucket"), u64_dec(j as u64));
                            insert_label(&mut bl, String::from_str("le"), le_text);
                            let ghost before = bucket_ms@.map_values(
                                |m: Metric<i64>| obs_of(m),
                            );
                            bucket_ms.push(
                                Metric {
                                    name: name.clone(),
                                    labels: bl,
                                    unified_name: String::new(),
                                    value: c,
                                },
                            );
                            proof {
                                assert(bucket_ms@.map_values(|m: Metric<i64>| obs_of(m))
                                    =~= before.push(obs_of(bucket_ms@.last())));
                            }
                        },
                        _ => {
                            proof {
                                lemma_bucket_obs_err(name@, ls, bs@, j + 1);
                            }
                            return Err(Error::MalformedMetrics);
                        },
                    }
                    j += 1;
                }
                proof {
                    assert(bs@.take(nb as int) =~= bs@);
                }
                let mut bms = bucket_ms;
                ints.append(&mut bms);
            },
            _ => { return Err(Error::UnexpectedValueType) },
        }
        let ghost previ = self.iv();
        let ghost prevf = self.fv();
        let ghost addi = ints@.map_values(|m: Metric<i64>| obs_of(m));
        let ghost addf = floats@.map_values(|m: Metric<u64>| obs_of(m));
        proof {
            let res = decode_obj(json@);
            assert(res is Ok);
            assert(addi =~= res->Ok_0.0);
            assert(addf =~= res->Ok_0.1);
            assert(res == Ok::<(Seq<ObsV<i64>>, Seq<ObsV<u64>>), Error>((addi, addf)));
        }
        self.i.append(&mut ints);
        self.f.append(&mut floats);
        proof {
            assert(self.iv() =~= previ + addi);
            assert(self.fv() =~= prevf + addf);
        }
        Ok(())
    }
}

/// The positions, below `n` and in ascending order, of the
/// observations whose unified key the pattern matches.
pub open spec fn hits_upto<V>(os: Seq<ObsV<V>>, pat: Seq<char>, n: int) -> Seq<usize>
    decreases n,
{
    if n <= 0 {
        Seq::empty()
    } else {
        hits_upto(os, pat, n - 1) + if regex_match(pat, obs_key(os[n - 1])) {
            seq![(n - 1) as usize]
        } else {
            Seq::empty()
        }
    }
}

impl Sample {
    /// The indices of the integer and of the float observations whose
    /// unified key the pattern matches, each list ascending.
    #[verifier::loop_isolation(false)]
    pub fn matched(&self, m: &Matcher) -> (r: (Vec<usize>, Vec<usize>))
        requires
            self.wf(),
        ensures
            r.0@ == hits_upto(self.iv(), m.pat(), self.iv().len() as int),
            r.1@ == hits_upto(self.fv(), m.pat(), self.fv().len() as int),
    {
        let mut ri: Vec<usize> = Vec::new();
        let ni = self.i.len();
        let mut j: usize = 0;
        proof {
            assert(ri@ =~= hits_upto(self.iv(), m.pat(), 0));
        }
        while j < ni
            invariant
                j <= ni,
                ni == self.i@.len(),
                ri@ == hits_upto(self.iv(), m.pat(), j as int),
            decreases ni - j,
        {
            let key = encode_key(&self.i[j].name, &self.i[j].labels);
            proof {
                assert(key@ == obs_key(self.iv()[j as int]));
            }
            let ghost pre = ri@;
            if m.is_match(key.as_str()) {
                ri.push(j);
                proof {
                    assert(ri@ =~= pre + seq![j]);
                }
            } else {
                proof {
                    assert(pre + Seq::<usize>::empty() =~= pre);
                }
            }
            j += 1;
        }
        let mut rf: Vec<usize> = Vec::new();
        let nf = self.f.len();
        let mut h: usize = 0;
        proof {
            assert(rf@ =~= hits_upto(self.fv(), m.pat(), 0));
        }
        while h < nf
            invariant
                h <= nf,
                nf == self.f@.len(),
                rf@ == hits_upto(self.fv(), m.pat(), h as int),
            decreases nf - h,
        {
            let key = encode_key(&self.f[h].name, &self.f[h].labels);
            proof {
                assert(key@ == obs_key(self.fv()[h as int]));
            }
            let ghost pre = rf@;
            if m.is_match(key.as_str()) {
                rf.push(h);
                proof {
                    assert(rf@ =~= pre + seq![h]);
                }
            } else {
                proof {
                    assert(pre + Seq::<usize>::empty() =~= pre);
                }
            }
            h += 1;
        }
        (ri, rf)
    }
}

impl Default for Sample {
    /// An empty sample, as `Sample::new` gives.
    fn default() -> (s: Sample)
        ensures
            s.wf(),
            s.iv() == Seq::<ObsV<i64>>::empty(),
            s.fv() == Seq::<ObsV<u64>>::empty(),
    {
        Sample::new()
    }
}

impl Sample {
    /// Decodes a whole metric dump into a sample: the document must be
    /// an object whose `metrics` field holds the array of elements, and
    /// every element must decode; the first failure decides, and no
    /// partial sample is returned.
    #[verifier::loop_isolation(false)]
    pub fn from_dump(doc: &Json) -> (r: Result<Sample, Error>)
        ensures
            match r {
                Ok(s) => {
                    &&& decode_dump(*doc) is Ok
                    &&& s.iv() == decode_dump(*doc)->Ok_0.0
                    &&& s.fv() == decode_dump(*doc)->Ok_0.1
                    &&& s.wf()
                },
                Err(e) => decode_dump(*doc) == Err::<(Seq<ObsV<i64>>, Seq<ObsV<u64>>), Error>(e),
            },
    {
        let top: &Vec<(String, Json)> = match doc {
            Json::Obj(t) => t,
            _ => { return Err(Error::MalformedMetrics) },
        };
        let elems: &Vec<Json> = match obj_get(top, "metrics") {
            Some(Json::Arr(a)) => a,
            Some(_) => { return Err(Error::MalformedMetrics) },
            None => { return Err(Error::MalformedMetrics) },
        };
        let mut sample = Sample::new();
        let n = elems.len();
        let mut j: usize = 0;
        proof {
            assert(elems@.take(0) =~= Seq::<Json>::empty());
        }
        while j < n
            invariant
                j <= n,
                n == elems@.len(),
                sample.wf(),
                decode_elements(elems@.take(j as int)) == Ok::<
                    (Seq<ObsV<i64>>, Seq<ObsV<u64>>),
                    Error,
                >((sample.iv(), sample.fv())),
            decreases n - j,
        {
            proof {
                assert(elems@.take(j + 1).drop_last() =~= elems@.take(j as int));
                assert(elems@.take(j + 1).last() == elems@[j as int]);
            }
            match &elems[j] {
                Json::Obj(e) => {
                    match sample.parse_json(e) {
                        Ok(_) => {},
                        Err(er) => {
                            proof {
                                lemma_decode_elements_err(elems@, j + 1);
                            }
                            return Err(er);
                        },
                    }
                },
                _ => {
                    proof {
                        lemma_decode_elements_err(elems@, j + 1);
                    }
                    return Err(Error::MalformedMetrics);
                },
            }
            j += 1;
        }
        proof {
            assert(elems@.take(n as int) =~= elems@);
        }
        Ok(sample)
    }
}

/// Copies a label vector; `String` cloning keeps each pair.
pub(crate) fn clone_labels(labels: &Vec<(String, String)>) -> (r: Vec<(String, String)>)
    ensures
        r@ == labels@,
{
    let n = labels.len();
    let mut r: Vec<(String, String)> = Vec::new();
    let mut i: usize = 0;
    while i < n
        invariant
            i <= n,
            n == labels@.len(),
            r@ == labels@.subrange(0, i as int),
        decreases n - i,
    {
        r.push((labels[i].0.clone(), labels[i].1.clone()));
        proof {
            assert(r@ =~= labels@.subrange(0, i + 1 as int));
        }
        i += 1;
    }
    proof {
        assert(r@ =~= labels@);
    }
    r
}

} // verus!
