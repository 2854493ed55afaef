//! The schema-locked columnar store of one sampling target.
//!
//! The first pushed sample fixes the schema: one column per observation,
//! integer columns first, float columns after, and an index from each
//! unified key to its ordinal (on a key collision — a histogram's count
//! and sum share one key — the float column's entry wins, as the later
//! insertion). Every later sample must present exactly the same keys in
//! the same order; anything else is `SchemaDrift`, the push is refused
//! and the stored history is untouched. A selection matches a pattern
//! against every indexed key and projects the matching columns, integer
//! values widened to float bits, in ascending ordinal order.

use vstd::prelude::*;
use crate::Error;
use crate::asok::{Sample, ObsV, obs_key, clone_labels};
use crate::floatbits::{f64_bits_of_i64, widen_i64};
use crate::metric::{Metric, Column, Columns, label_views, encode_key};
use crate::pattern::{Matcher, regex_valid, regex_match};
use crate::text::str_eq_str;

verus! {

/// The accumulated time series of one target.
pub struct WatchResultPerOSD {
    /// Unified key to column ordinal (integer columns first, float
    /// columns offset by the integer column count); keys are distinct.
    pub index: Vec<(String, usize)>,
    /// One timestamp per pushed sample.
    pub timestamp: Vec<u64>,
    /// The integer columns, in first-sample order.
    pub i: Columns<i64>,
    /// The float columns (bit patterns), in first-sample order.
    pub f: Columns<u64>,
}

/// The map an index vector denotes; a later entry would win, though a
/// well-formed store holds each key once.
pub open spec fn idx_map_of(ix: Seq<(String, usize)>) -> Map<Seq<char>, int>
    decreases ix.len(),
{
    if ix.len() == 0 {
        Map::empty()
    } else {
        idx_map_of(ix.drop_last()).insert(ix.last().0@, ix.last().1 as int)
    }
}

/// Keys folded into a map at ordinals `off`, `off + 1`, ...: the last
/// binding of a repeated key wins.
pub open spec fn ins_keys(m: Map<Seq<char>, int>, keys: Seq<Seq<char>>, off: int) -> Map<
    Seq<char>,
    int,
>
    decreases keys.len(),
{
    if keys.len() == 0 {
        m
    } else {
        ins_keys(m, keys.drop_last(), off).insert(keys.last(), off + keys.len() - 1)
    }
}

/// The canonical index of a schema: integer keys at their ordinals,
/// then float keys at offset ordinals, the floats shadowing equal keys.
pub open spec fn schema_index(ikeys: Seq<Seq<char>>, fkeys: Seq<Seq<char>>) -> Map<Seq<char>, int> {
    ins_keys(ins_keys(Map::empty(), ikeys, 0), fkeys, ikeys.len() as int)
}

/// The view of one column: identity plus all its values.
pub open spec fn col_view<V>(c: Column<V>) -> ObsV<Seq<V>> {
    ObsV { name: c.name@, labels: label_views(c.labels@), value: c.value@ }
}

/// The unified keys of a sequence of observations.
pub open spec fn obs_keys<V>(os: Seq<ObsV<V>>) -> Seq<Seq<char>> {
    os.map_values(|o: ObsV<V>| obs_key(o))
}

impl WatchResultPerOSD {
    /// The integer column views.
    pub open spec fn civ(&self) -> Seq<ObsV<Seq<i64>>> {
        self.i@.map_values(|c: Column<i64>| col_view(c))
    }

    /// The float column views.
    pub open spec fn cfv(&self) -> Seq<ObsV<Seq<u64>>> {
        self.f@.map_values(|c: Column<u64>| col_view(c))
    }

    /// The integer columns' unified keys, in ordinal order.
    pub open spec fn ikeys(&self) -> Seq<Seq<char>> {
        self.i@.map_values(|c: Column<i64>| c.key())
    }

    /// The float columns' unified keys, in ordinal order.
    pub open spec fn fkeys(&self) -> Seq<Seq<char>> {
        self.f@.map_values(|c: Column<u64>| c.key())
    }

    /// Well-formed: columns well-formed and as long as the timestamp
    /// sequence, the index holding exactly the schema's bindings, each
    /// key once.
    pub open spec fn wf(&self) -> bool {
        &&& forall|j: int|
            0 <= j < self.i@.len() ==> (#[trigger] self.i@[j]).wf() && self.i@[j].value@.len()
                == self.timestamp@.len()
        &&& forall|j: int|
            0 <= j < self.f@.len() ==> (#[trigger] self.f@[j]).wf() && self.f@[j].value@.len()
                == self.timestamp@.len()
        &&& idx_map_of(self.index@) == schema_index(self.ikeys(), self.fkeys())
        &&& forall|p: int, q: int|
            0 <= p < q < self.index@.len() ==> (#[trigger] self.index@[p]).0@ != (
            #[trigger] self.index@[q]).0@
        &&& self.timestamp@.len() == 0 ==> self.i@.len() == 0 && self.f@.len() == 0
        &&& self.i@.len() + self.f@.len() <= usize::MAX
    }

    /// A fresh store with no schema.
    pub fn new() -> (s: WatchResultPerOSD)
        ensures
            s.wf(),
            s.timestamp@ == Seq::<u64>::empty(),
            s.civ() == Seq::<ObsV<Seq<i64>>>::empty(),
            s.cfv() == Seq::<ObsV<Seq<u64>>>::empty(),
    {
        let s = WatchResultPerOSD {
            index: Vec::new(),
            timestamp: Vec::new(),
            i: Vec::new(),
            f: Vec::new(),
        };
        proof {
            assert(s.civ() =~= Seq::<ObsV<Seq<i64>>>::empty());
            assert(s.cfv() =~= Seq::<ObsV<Seq<u64>>>::empty());
            assert(s.ikeys() =~= Seq::<Seq<char>>::empty());
            assert(s.fkeys() =~= Seq::<Seq<char>>::empty());
            assert(idx_map_of(s.index@) =~= schema_index(s.ikeys(), s.fkeys()));
        }
        s
    }
}

/// What a push promises: on success the timestamp is appended and every
/// column either starts (first sample) or grows by its observation's
/// value; on `SchemaDrift` the sample's keys disagreed with the locked
/// schema and the store is exactly what it was.
pub open spec fn push_post(
    pre: WatchResultPerOSD,
    post: WatchResultPerOSD,
    t: u64,
    sample: Sample,
    r: Result<(), Error>,
) -> bool {
    match r {
        Ok(_) => {
            &&& pre.timestamp@.len() == 0 || (pre.ikeys() == obs_keys(sample.iv())
                && pre.fkeys() == obs_keys(sample.fv()))
            &&& post.timestamp@ == pre.timestamp@.push(t)
            &&& post.civ().len() == sample.iv().len()
            &&& post.cfv().len() == sample.fv().len()
            &&& forall|j: int|
                0 <= j < sample.iv().len() ==> (#[trigger] post.civ()[j])
                    == if pre.timestamp@.len() == 0 {
                    ObsV {
                        name: sample.iv()[j].name,
                        labels: sample.iv()[j].labels,
                        value: seq![sample.iv()[j].value],
                    }
                } else {
                    ObsV {
                        name: pre.civ()[j].name,
                        labels: pre.civ()[j].labels,
                        value: pre.civ()[j].value.push(sample.iv()[j].value),
                    }
                }
            &&& forall|j: int|
                0 <= j < sample.fv().len() ==> (#[trigger] post.cfv()[j])
                    == if pre.timestamp@.len() == 0 {
                    ObsV {
                        name: sample.fv()[j].name,
                        labels: sample.fv()[j].labels,
                        value: seq![sample.fv()[j].value],
                    }
                } else {
                    ObsV {
                        name: pre.cfv()[j].name,
                        labels: pre.cfv()[j].labels,
                        value: pre.cfv()[j].value.push(sample.fv()[j].value),
                    }
                }
        },
        Err(e) => {
            &&& e == Error::SchemaDrift
            &&& post == pre
            &&& pre.timestamp@.len() > 0
            &&& !(pre.ikeys() == obs_keys(sample.iv()) && pre.fkeys() == obs_keys(sample.fv()))
        },
    }
}

impl WatchResultPerOSD {
    /// Appends one sample at timestamp `t`. The first push fixes the
    /// schema — one column per observation, in observation order, and
    /// the index bindings; every later push must present exactly the
    /// same keys in the same order, else it is refused with
    /// `SchemaDrift` and the store is left untouched.
    #[verifier::loop_isolation(false)]
    pub fn push(&mut self, t: u64, sample: &Sample) -> (r: Result<(), Error>)
        requires
            old(self).wf(),
            sample.wf(),
            sample.i@.len() + sample.f@.len() <= usize::MAX,
        ensures
            final(self).wf(),
            push_post(*old(self), *final(self), t, *sample, r),
    {
        let ghost oiv = sample.iv();
        let ghost ofv = sample.fv();
        if self.timestamp.len() == 0 {
            let ni = sample.i.len();
            let mut j: usize = 0;
            proof {
                assert(idx_map_of(self.index@) =~= ins_keys(
                    Map::empty(),
                    obs_keys(oiv).take(0),
                    0,
                ));
            }
            while j < ni
                invariant
                    j <= ni,
                    self.i@.len() == j,
                    self.f@.len() == 0,
                    self.timestamp@ == old(self).timestamp@,
                    forall|p: int|
                        0 <= p < j ==> (#[trigger] self.i@[p]).wf() && self.i@[p].value@.len()
                            == 1 && col_view(self.i@[p]) == (ObsV {
                            name: oiv[p].name,
                            labels: oiv[p].labels,
                            value: seq![oiv[p].value],
                        }) && self.i@[p].key() == obs_keys(oiv)[p],
                    idx_map_of(self.index@) == ins_keys(Map::empty(), obs_keys(oiv).take(
                        j as int,
                    ), 0),
                    forall|p: int, q: int|
                        0 <= p < q < self.index@.len() ==> (#[trigger] self.index@[p]).0@ != (
                        #[trigger] self.index@[q]).0@,
                decreases ni - j,
            {
                let name = sample.i[j].name.clone();
                let labels = clone_labels(&sample.i[j].labels);
                let key = encode_key(&name, &labels);
                let mut vv: Vec<i64> = Vec::new();
                vv.push(sample.i[j].value);
                let col = Metric { name, labels, unified_name: key.clone(), value: vv };
                proof {
                    assert(sample.i@[j as int].wf());
                    assert(col.key() == sample.i@[j as int].key());
                    assert(obs_keys(oiv)[j as int] == col.key());
                }
                self.i.push(col);
                idx_put(&mut self.index, key, j);
                proof {
                    assert(obs_keys(oiv).take(j + 1).drop_last() =~= obs_keys(oiv).take(
                        j as int,
                    ));
                    assert(obs_keys(oiv).take(j + 1).last() == obs_keys(oiv)[j as int]);
                }
                j += 1;
            }
            let nf = sample.f.len();
            let mut h: usize = 0;
            proof {
                assert(obs_keys(oiv).take(ni as int) =~= obs_keys(oiv));
                assert(obs_keys(ofv).take(0) =~= Seq::<Seq<char>>::empty());
            }
            while h < nf
                invariant
                    h <= nf,
                    self.i@.len() == ni,
                    self.f@.len() == h,
                    self.timestamp@ == old(self).timestamp@,
                    forall|p: int|
                        0 <= p < ni ==> (#[trigger] self.i@[p]).wf() && self.i@[p].value@.len()
                            == 1 && col_view(self.i@[p]) == (ObsV {
                            name: oiv[p].name,
                            labels: oiv[p].labels,
                            value: seq![oiv[p].value],
                        }) && self.i@[p].key() == obs_keys(oiv)[p],
                    forall|p: int|
                        0 <= p < h ==> (#[trigger] self.f@[p]).wf() && self.f@[p].value@.len()
                            == 1 && col_view(self.f@[p]) == (ObsV {
                            name: ofv[p].name,
                            labels: ofv[p].labels,
                            value: seq![ofv[p].value],
                        }) && self.f@[p].key() == obs_keys(ofv)[p],
                    idx_map_of(self.index@) == ins_keys(
                        ins_keys(Map::empty(), obs_keys(oiv), 0),
                        obs_keys(ofv).take(h as int),
                        ni as int,
                    ),
                    forall|p: int, q: int|
                        0 <= p < q < self.index@.len() ==> (#[trigger] self.index@[p]).0@ != (
                        #[trigger] self.index@[q]).0@,
                decreases nf - h,
            {
                let name = sample.f[h].name.clone();
                let labels = clone_labels(&sample.f[h].labels);
                let key = encode_key(&name, &labels);
                let mut vv: Vec<u64> = Vec::new();
                vv.push(sample.f[h].value);
                let col = Metric { name, labels, unified_name: key.clone(), value: vv };
                proof {
                    assert(sample.f@[h as int].wf());
                    assert(col.key() == sample.f@[h as int].key());
                    assert(obs_keys(ofv)[h as int] == col.key());
                }
                self.f.push(col);
                idx_put(&mut self.index, key, ni + h);
                proof {
                    assert(obs_keys(ofv).take(h + 1).drop_last() =~= obs_keys(ofv).take(
                        h as int,
                    ));
                    assert(obs_keys(ofv).take(h + 1).last() == obs_keys(ofv)[h as int]);
                }
                h += 1;
            }
            self.timestamp.push(t);
            proof {
                assert(obs_keys(ofv).take(nf as int) =~= obs_keys(ofv));
                assert(self.ikeys() =~= obs_keys(oiv));
                assert(self.fkeys() =~= obs_keys(ofv));
                assert(idx_map_of(self.index@) == schema_index(self.ikeys(), self.fkeys()));
                assert(final(self).civ().len() == sample.iv().len());
                assert(final(self).cfv().len() == sample.fv().len());
            }
            Ok(())
        } else {
            let ni = self.i.len();
            let nf = self.f.len();
            if sample.i.len() != ni || sample.f.len() != nf {
                proof {
                    if sample.i@.len() != ni {
                        assert(obs_keys(oiv).len() != old(self).ikeys().len());
                    } else {
                        assert(obs_keys(ofv).len() != old(self).fkeys().len());
                    }
                }
                return Err(Error::SchemaDrift);
            }
            let mut j: usize = 0;
            while j < ni
                invariant
                    j <= ni,
                    *self == *old(self),
                    forall|p: int| 0 <= p < j ==> old(self).ikeys()[p] == obs_keys(oiv)[p],
                decreases ni - j,
            {
                let sk = encode_key(&sample.i[j].name, &sample.i[j].labels);
                let ck = encode_key(&self.i[j].name, &self.i[j].labels);
                if !str_eq_str(sk.as_str(), ck.as_str()) {
                    proof {
                        assert(old(self).ikeys()[j as int] != obs_keys(oiv)[j as int]);
                    }
                    return Err(Error::SchemaDrift);
                }
                j += 1;
            }
            let mut h: usize = 0;
            while h < nf
                invariant
                    h <= nf,
                    *self == *old(self),
                    forall|p: int| 0 <= p < h ==> old(self).fkeys()[p] == obs_keys(ofv)[p],
                decreases nf - h,
            {
                let sk = encode_key(&sample.f[h].name, &sample.f[h].labels);
                let ck = encode_key(&self.f[h].name, &self.f[h].labels);
                if !str_eq_str(sk.as_str(), ck.as_str()) {
                    proof {
                        assert(old(self).fkeys()[h as int] != obs_keys(ofv)[h as int]);
                    }
                    return Err(Error::SchemaDrift);
                }
                h += 1;
            }
            proof {
                assert(old(self).ikeys() =~= obs_keys(oiv));
                assert(old(self).fkeys() =~= obs_keys(ofv));
            }
            let mut j: usize = 0;
            while j < ni
                invariant
                    j <= ni,
                    self.i@.len() == ni,
                    self.f@ == old(self).f@,
                    self.index@ == old(self).index@,
                    self.timestamp@ == old(self).timestamp@,
                    forall|p: int|
                        0 <= p < j ==> (#[trigger] self.i@[p]).wf() && self.i@[p].value@.len()
                            == self.timestamp@.len() + 1 && col_view(self.i@[p]) == (ObsV {
                            name: old(self).civ()[p].name,
                            labels: old(self).civ()[p].labels,
                            value: old(self).civ()[p].value.push(oiv[p].value),
                        }) && self.i@[p].key() == old(self).i@[p].key(),
                    forall|p: int| j <= p < ni ==> self.i@[p] == old(self).i@[p],
                decreases ni - j,
            {
                let v = sample.i[j].value;
                let mut c = self.i.remove(j);
                c.value.push(v);
                self.i.insert(j, c);
                j += 1;
            }
            let mut h: usize = 0;
            while h < nf
                invariant
                    h <= nf,
                    self.i@.len() == ni,
                    self.f@.len() == nf,
                    self.index@ == old(self).index@,
                    self.timestamp@ == old(self).timestamp@,
                    forall|p: int|
                        0 <= p < ni ==> (#[trigger] self.i@[p]).wf() && self.i@[p].value@.len()
                            == self.timestamp@.len() + 1 && col_view(self.i@[p]) == (ObsV {
                            name: old(self).civ()[p].name,
                            labels: old(self).civ()[p].labels,
                            value: old(self).civ()[p].value.push(oiv[p].value),
                        }) && self.i@[p].key() == old(self).i@[p].key(),
                    forall|p: int|
                        0 <= p < h ==> (#[trigger] self.f@[p]).wf() && self.f@[p].value@.len()
                            == self.timestamp@.len() + 1 && col_view(self.f@[p]) == (ObsV {
                            name: old(self).cfv()[p].name,
                            labels: old(self).cfv()[p].labels,
                            value: old(self).cfv()[p].value.push(ofv[p].value),
                        }) && self.f@[p].key() == old(self).f@[p].key(),
                    forall|p: int| h <= p < nf ==> self.f@[p] == old(self).f@[p],
                decreases nf - h,
            {
                let v = sample.f[h].value;
                let mut c = self.f.remove(h);
                c.value.push(v);
                self.f.insert(h, c);
                h += 1;
            }
            self.timestamp.push(t);
            proof {
                assert(self.ikeys() =~= old(self).ikeys());
                assert(self.fkeys() =~= old(self).fkeys());
                assert(idx_map_of(self.index@) == schema_index(self.ikeys(), self.fkeys()));
            }
            Ok(())
        }
    }
}

impl Default for WatchResultPerOSD {
    /// A fresh store with no schema, as `WatchResultPerOSD::new` gives.
    fn default() -> (s: WatchResultPerOSD)
        ensures
            s.wf(),
            s.timestamp@ == Seq::<u64>::empty(),
            s.civ() == Seq::<ObsV<Seq<i64>>>::empty(),
            s.cfv() == Seq::<ObsV<Seq<u64>>>::empty(),
    {
        WatchResultPerOSD::new()
    }
}

impl WatchResultPerOSD {
    /// The view of the column at ordinal `j`, integer values widened to
    /// float bit patterns.
    pub open spec fn widened(&self, j: int) -> ObsV<Seq<u64>> {
        if j < self.i@.len() {
            ObsV {
                name: self.civ()[j].name,
                labels: self.civ()[j].labels,
                value: self.civ()[j].value.map_values(|v: i64| f64_bits_of_i64(v)),
            }
        } else {
            self.cfv()[j - self.i@.len()]
        }
    }

    /// Whether ordinal `j` is selected by `pat`: the index binds some
    /// key to `j` (a shadowed column is not bound) and the pattern
    /// matches that key.
    pub open spec fn sel_hit(&self, pat: Seq<char>, j: int) -> bool {
        exists|p: int|
            0 <= p < self.index@.len() && (#[trigger] self.index@[p]).1 == j && regex_match(
                pat,
                self.index@[p].0@,
            )
    }

    /// The selection's result up to ordinal `n`: the widened views of
    /// the selected ordinals, in ascending ordinal order.
    pub open spec fn sel_upto(&self, pat: Seq<char>, n: int) -> Seq<ObsV<Seq<u64>>>
        decreases n,
    {
        if n <= 0 {
            Seq::empty()
        } else {
            self.sel_upto(pat, n - 1) + if self.sel_hit(pat, n - 1) {
                seq![self.widened(n - 1)]
            } else {
                Seq::empty()
            }
        }
    }

    /// Selects every column whose indexed key matches the pattern,
    /// integer columns widened to float bits, in ascending ordinal
    /// order. Fails with `InvalidPattern` on a pattern the regex engine
    /// refuses and with `NoMatch` when no key matches.
    #[verifier::loop_isolation(false)]
    pub fn select(&self, pattern: &str) -> (r: Result<Columns<u64>, Error>)
        requires
            self.wf(),
        ensures
            match r {
                Ok(cols) => {
                    &&& regex_valid(pattern@)
                    &&& cols@.map_values(|c: Column<u64>| col_view(c)) == self.sel_upto(
                        pattern@,
                        self.i@.len() + self.f@.len() as int,
                    )
                    &&& cols@.len() > 0
                    &&& forall|p: int| 0 <= p < cols@.len() ==> (#[trigger] cols@[p]).wf()
                },
                Err(e) => (e == Error::InvalidPattern && !regex_valid(pattern@)) || (e
                    == Error::NoMatch && regex_valid(pattern@) && self.sel_upto(
                    pattern@,
                    self.i@.len() + self.f@.len() as int,
                ).len() == 0),
            },
    {
        let m = match Matcher::new(pattern) {
            Ok(m) => m,
            Err(e) => { return Err(e) },
        };
        let ni = self.i.len();
        let nf = self.f.len();
        let nx = self.index.len();
        let total = ni + nf;
        let mut cols: Vec<Column<u64>> = Vec::new();
        let mut j: usize = 0;
        proof {
            assert(cols@.map_values(|c: Column<u64>| col_view(c)) =~= self.sel_upto(
                pattern@,
                0,
            ));
        }
        while j < total
            invariant
                j <= total,
                total == self.i@.len() + self.f@.len(),
                cols@.map_values(|c: Column<u64>| col_view(c)) == self.sel_upto(
                    pattern@,
                    j as int,
                ),
                forall|p: int| 0 <= p < cols@.len() ==> (#[trigger] cols@[p]).wf(),
            decreases total - j,
        {
            let mut hit = false;
            let mut p: usize = 0;
            while p < nx
                invariant
                    p <= nx,
                    nx == self.index@.len(),
                    hit == exists|q: int|
                        0 <= q < p && (#[trigger] self.index@[q]).1 == j as int && regex_match(
                            pattern@,
                            self.index@[q].0@,
                        ),
                decreases nx - p,
            {
                if self.index[p].1 == j {
                    if m.is_match(self.index[p].0.as_str()) {
                        hit = true;
                    }
                }
                p += 1;
            }
            proof {
                assert(hit == self.sel_hit(pattern@, j as int));
            }
            let ghost pre = cols@.map_values(|c: Column<u64>| col_view(c));
            if hit {
                let col = if j < ni {
                    let src = &self.i[j];
                    let nv = src.value.len();
                    let mut vv: Vec<u64> = Vec::new();
                    let mut q: usize = 0;
                    proof {
                        assert(vv@ =~= src.value@.map_values(
                            |v: i64| f64_bits_of_i64(v),
                        ).take(0));
                    }
                    while q < nv
                        invariant
                            q <= nv,
                            nv == src.value@.len(),
                            vv@ == src.value@.map_values(|v: i64| f64_bits_of_i64(v)).take(
                                q as int,
                            ),
                        decreases nv - q,
                    {
                        vv.push(widen_i64(src.value[q]));
                        proof {
                            assert(vv@ =~= src.value@.map_values(
                                |v: i64| f64_bits_of_i64(v),
                            ).take(q + 1));
                        }
                        q += 1;
                    }
                    proof {
                        assert(src.value@.map_values(|v: i64| f64_bits_of_i64(v)).take(
                            nv as int,
                        ) =~= src.value@.map_values(|v: i64| f64_bits_of_i64(v)));
                    }
                    Metric {
                        name: src.name.clone(),
                        labels: clone_labels(&src.labels),
                        unified_name: src.unified_name.clone(),
                        value: vv,
                    }
                } else {
                    let src = &self.f[j - ni];
                    let nv = src.value.len();
                    let mut vv: Vec<u64> = Vec::new();
                    let mut q: usize = 0;
                    while q < nv
                        invariant
                            q <= nv,
                            nv == src.value@.len(),
                            vv@ == src.value@.take(q as int),
                        decreases nv - q,
                    {
                        vv.push(src.value[q]);
                        proof {
                            assert(vv@ =~= src.value@.take(q + 1));
                        }
                        q += 1;
                    }
                    proof {
                        assert(src.value@.take(nv as int) =~= src.value@);
                    }
                    Metric {
                        name: src.name.clone(),
                        labels: clone_labels(&src.labels),
                        unified_name: src.unified_name.clone(),
                        value: vv,
                    }
                };
                proof {
                    assert(col_view(col) == self.widened(j as int));
                    assert(col.wf());
                }
                cols.push(col);
                proof {
                    assert(cols@.map_values(|c: Column<u64>| col_view(c)) =~= pre.push(
                        col_view(col),
                    ));
                    assert(pre.push(self.widened(j as int)) =~= self.sel_upto(
                        pattern@,
                        j + 1,
                    ));
                }
            } else {
                proof {
                    assert(pre + Seq::<ObsV<Seq<u64>>>::empty() =~= pre);
                }
            }
            j += 1;
        }
        if cols.len() == 0 {
            return Err(Error::NoMatch);
        }
        Ok(cols)
    }
}

/// Binds `k` to `ord` in an index vector, replacing an existing binding
/// of the same key.
#[verifier::loop_isolation(false)]
fn idx_put(ix: &mut Vec<(String, usize)>, k: String, ord: usize)
    requires
        forall|p: int, q: int|
            0 <= p < q < old(ix)@.len() ==> (#[trigger] old(ix)@[p]).0@
                != (#[trigger] old(ix)@[q]).0@,
    ensures
        idx_map_of(final(ix)@) == idx_map_of(old(ix)@).insert(k@, ord as int),
        forall|p: int, q: int|
            0 <= p < q < final(ix)@.len() ==> (#[trigger] final(ix)@[p]).0@
                != (#[trigger] final(ix)@[q]).0@,
{
    let n = ix.len();
    let mut j: usize = 0;
    while j < n
        invariant
            j <= n,
            n == ix@.len(),
            ix@ == old(ix)@,
            forall|p: int| 0 <= p < j ==> (#[trigger] ix@[p]).0@ != k@,
        decreases n - j,
    {
        if str_eq_str(ix[j].0.as_str(), k.as_str()) {
            let ghost pre = ix@;
            ix.remove(j);
            ix.insert(j, (k, ord));
            proof {
                let e = ix@[j as int];
                assert(ix@ =~= pre.update(j as int, e));
                assert forall|p: int| 0 <= p < pre.len() && p != j implies (#[trigger] pre[p]).0@
                    != e.0@ by {
                    if p < j {
                        assert(pre[p].0@ != pre[j as int].0@);
                    } else {
                        assert(pre[j as int].0@ != pre[p].0@);
                    }
                }
                lemma_idx_update(pre, j as int, e);
                assert forall|p: int, q: int| 0 <= p < q < ix@.len() implies (
                #[trigger] ix@[p]).0@ != (#[trigger] ix@[q]).0@ by {
                    assert(ix@[p].0@ == pre[p].0@ && ix@[q].0@ == pre[q].0@);
                }
            }
            return;
        }
        j += 1;
    }
    let ghost pre = ix@;
    ix.push((k, ord));
    proof {
        assert(ix@.drop_last() =~= pre);
        assert(ix@.last() == (k, ord));
        assert forall|p: int, q: int|
            0 <= p < q < ix@.len() implies (#[trigger] ix@[p]).0@ != (#[trigger] ix@[q]).0@ by {
            if q == ix@.len() - 1 {
                assert(ix@[p] == pre[p]);
            }
        }
    }
}

/// Re-binding the one entry that holds a key updates the denoted map at
/// that key alone.
proof fn lemma_idx_update(pre: Seq<(String, usize)>, j: int, e: (String, usize))
    requires
        0 <= j < pre.len(),
        pre[j].0@ == e.0@,
        forall|p: int| 0 <= p < pre.len() && p != j ==> (#[trigger] pre[p]).0@ != e.0@,
    ensures
        idx_map_of(pre.update(j, e)) == idx_map_of(pre).insert(e.0@, e.1 as int),
    decreases pre.len(),
{
    let post = pre.update(j, e);
    if j == pre.len() - 1 {
        assert(post.drop_last() =~= pre.drop_last());
        assert(post.last() == e);
        assert(idx_map_of(pre.drop_last()).insert(e.0@, e.1 as int) =~= idx_map_of(
            pre.drop_last(),
        ).insert(pre[j].0@, pre[j].1 as int).insert(e.0@, e.1 as int));
    } else {
        let pl = pre.drop_last();
        assert(post.drop_last() =~= pl.update(j, e));
        assert(post.last() == pre.last());
        assert forall|p: int| 0 <= p < pl.len() && p != j implies (#[trigger] pl[p]).0@
            != e.0@ by {
            assert(pl[p] == pre[p]);
        }
        assert(pl[j] == pre[j]);
        lemma_idx_update(pl, j, e);
        assert(pre.last().0@ != e.0@);
        assert(idx_map_of(pl).insert(e.0@, e.1 as int).insert(
            pre.last().0@,
            pre.last().1 as int,
        ) =~= idx_map_of(pl).insert(pre.last().0@, pre.last().1 as int).insert(
            e.0@,
            e.1 as int,
        ));
        assert(idx_map_of(post) == idx_map_of(post.drop_last()).insert(
            post.last().0@,
            post.last().1 as int,
        ));
    }
}

} // verus!
