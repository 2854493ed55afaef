//! The windowed delta-ratio analysis over two related counters.
//!
//! For each target, the invalidated and the committed transaction
//! counters are selected by pattern and paired column by column; each
//! pair yields, for every tick `t >= 1`, the window of the two current
//! and the two previous values. The ratio of one window is the float
//! division `(cur_num - prev_num) / (cur_den - prev_den)`, work for the
//! host's float unit where the windows are consumed; a window with no
//! denominator progress yields a non-finite pattern there, which
//! `finite_only` drops.

use vstd::prelude::*;
use crate::Error;
use crate::floatbits::{f64_bits_is_finite, is_finite_bits};
use crate::pattern::regex_valid;
use crate::store::WatchResultPerOSD;
use crate::watcher::WatchResult;

verus! {

/// One ratio window: the two values whose difference is the numerator
/// and the two whose difference is the denominator, as float bits.
#[derive(Clone, Copy, PartialEq, Eq, Structural, Debug)]
pub struct RatioWindow {
    pub cur_num: u64,
    pub prev_num: u64,
    pub cur_den: u64,
    pub prev_den: u64,
}

/// The windows of two paired series: one per tick from the second on.
pub open spec fn windows_of(a: Seq<u64>, b: Seq<u64>) -> Seq<RatioWindow> {
    let n = if a.len() <= b.len() {
        a.len() as int
    } else {
        b.len() as int
    };
    Seq::new(
        (if n == 0 {
            0
        } else {
            n - 1
        }) as nat,
        |t: int|
            RatioWindow {
                cur_num: a[t + 1],
                prev_num: a[t],
                cur_den: b[t + 1],
                prev_den: b[t],
            },
    )
}

/// Computes the windows of two paired series.
#[verifier::loop_isolation(false)]
pub fn pair_windows(a: &Vec<u64>, b: &Vec<u64>) -> (r: Vec<RatioWindow>)
    ensures
        r@ == windows_of(a@, b@),
{
    let n = if a.len() <= b.len() {
        a.len()
    } else {
        b.len()
    };
    let mut r: Vec<RatioWindow> = Vec::new();
    if n == 0 {
        proof {
            assert(r@ =~= windows_of(a@, b@));
        }
        return r;
    }
    let mut t: usize = 1;
    while t < n
        invariant
            1 <= t <= n,
            n <= a@.len(),
            n <= b@.len(),
            n == if a@.len() <= b@.len() {
                a@.len() as int
            } else {
                b@.len() as int
            },
            r@ == windows_of(a@, b@).take(t - 1),
        decreases n - t,
    {
        r.push(
            RatioWindow { cur_num: a[t], prev_num: a[t - 1], cur_den: b[t], prev_den: b[t - 1] },
        );
        proof {
            assert(r@ =~= windows_of(a@, b@).take(t as int));
        }
        t += 1;
    }
    proof {
        assert(windows_of(a@, b@).take(n - 1) =~= windows_of(a@, b@));
    }
    r
}

/// What the transaction-conflict analysis of one store yields: the
/// invalidated counters selected, the committed counters selected, the
/// matching pairs windowed; the selection errors in that order.
pub open spec fn trans_windows_spec(s: WatchResultPerOSD) -> Result<Seq<Seq<RatioWindow>>, Error> {
    let total = s.i@.len() + s.f@.len() as int;
    let a = s.sel_upto("cache_trans_invalidated"@, total);
    let b = s.sel_upto("cache_trans_committed"@, total);
    if !regex_valid("cache_trans_invalidated"@) {
        Err(Error::InvalidPattern)
    } else if a.len() == 0 {
        Err(Error::NoMatch)
    } else if !regex_valid("cache_trans_committed"@) {
        Err(Error::InvalidPattern)
    } else if b.len() == 0 {
        Err(Error::NoMatch)
    } else {
        let n = if a.len() <= b.len() {
            a.len() as int
        } else {
            b.len() as int
        };
        Ok(Seq::new(n as nat, |p: int| windows_of(a[p].value, b[p].value)))
    }
}

/// The transaction-conflict windows of one store.
#[verifier::loop_isolation(false)]
pub fn trans_windows(s: &WatchResultPerOSD) -> (r: Result<Vec<Vec<RatioWindow>>, Error>)
    requires
        s.wf(),
    ensures
        match r {
            Ok(ws) => trans_windows_spec(*s) == Ok::<Seq<Seq<RatioWindow>>, Error>(
                ws@.map_values(|v: Vec<RatioWindow>| v@),
            ),
            Err(e) => trans_windows_spec(*s) == Err::<Seq<Seq<RatioWindow>>, Error>(e),
        },
{
    let inva = match s.select("cache_trans_invalidated") {
        Ok(c) => c,
        Err(e) => { return Err(e) },
    };
    let comm = match s.select("cache_trans_committed") {
        Ok(c) => c,
        Err(e) => { return Err(e) },
    };
    let ghost a = s.sel_upto(
        "cache_trans_invalidated"@,
        s.i@.len() + s.f@.len() as int,
    );
    let ghost b = s.sel_upto("cache_trans_committed"@, s.i@.len() + s.f@.len() as int);
    let n = if inva.len() <= comm.len() {
        inva.len()
    } else {
        comm.len()
    };
    let mut ws: Vec<Vec<RatioWindow>> = Vec::new();
    let mut p: usize = 0;
    while p < n
        invariant
            p <= n,
            n <= inva@.len(),
            n <= comm@.len(),
            inva@.len() == a.len(),
            comm@.len() == b.len(),
            n == if a.len() <= b.len() {
                a.len() as int
            } else {
                b.len() as int
            },
            forall|q: int|
                0 <= q < inva@.len() ==> (#[trigger] inva@[q]).value@ == a[q].value,
            forall|q: int|
                0 <= q < comm@.len() ==> (#[trigger] comm@[q]).value@ == b[q].value,
            ws@.map_values(|v: Vec<RatioWindow>| v@) == Seq::new(
                p as nat,
                |q: int| windows_of(a[q].value, b[q].value),
            ),
        decreases n - p,
    {
        let ghost pre = ws@.map_values(|v: Vec<RatioWindow>| v@);
        let w = pair_windows(&inva[p].value, &comm[p].value);
        ws.push(w);
        proof {
            assert(ws@.map_values(|v: Vec<RatioWindow>| v@) =~= pre.push(w@));
            assert(ws@.map_values(|v: Vec<RatioWindow>| v@) =~= Seq::new(
                (p + 1) as nat,
                |q: int| windows_of(a[q].value, b[q].value),
            ));
        }
        p += 1;
    }
    Ok(ws)
}

/// The transaction-conflict windows of every target, in target order;
/// the first failing target decides. The detail flag chooses only how
/// a consumer renders the result and does not change the computation.
#[verifier::loop_isolation(false)]
pub fn trans_conflict(metrics: &WatchResult, detailed: bool) -> (r: Result<
    Vec<(String, Vec<Vec<RatioWindow>>)>,
    Error,
>)
    requires
        forall|p: int| 0 <= p < metrics@.len() ==> (#[trigger] metrics@[p]).1.wf(),
    ensures
        match r {
            Ok(out) => {
                &&& out@.len() == metrics@.len()
                &&& forall|p: int|
                    0 <= p < metrics@.len() ==> (#[trigger] out@[p]).0 == metrics@[p].0
                        && trans_windows_spec(metrics@[p].1) == Ok::<
                        Seq<Seq<RatioWindow>>,
                        Error,
                    >(out@[p].1@.map_values(|v: Vec<RatioWindow>| v@))
            },
            Err(e) => exists|p: int|
                0 <= p < metrics@.len() && trans_windows_spec(#[trigger] metrics@[p].1) == Err::<
                    Seq<Seq<RatioWindow>>,
                    Error,
                >(e) && forall|q: int|
                    0 <= q < p ==> trans_windows_spec(#[trigger] metrics@[q].1) is Ok,
        },
{
    let _ = detailed;
    let n = metrics.len();
    let mut out: Vec<(String, Vec<Vec<RatioWindow>>)> = Vec::new();
    let mut p: usize = 0;
    while p < n
        invariant
            p <= n,
            n == metrics@.len(),
            out@.len() == p,
            forall|q: int|
                0 <= q < p ==> (#[trigger] out@[q]).0 == metrics@[q].0 && trans_windows_spec(
                    metrics@[q].1,
                ) == Ok::<Seq<Seq<RatioWindow>>, Error>(out@[q].1@.map_values(
                    |v: Vec<RatioWindow>| v@,
                )),
        decreases n - p,
    {
        match trans_windows(&metrics[p].1) {
            Ok(ws) => {
                out.push((metrics[p].0.clone(), ws));
            },
            Err(e) => {
                proof {
                    assert(trans_windows_spec(metrics@[p as int].1) == Err::<
                        Seq<Seq<RatioWindow>>,
                        Error,
                    >(e));
                    assert forall|q: int| 0 <= q < p implies trans_windows_spec(
                        #[trigger] metrics@[q].1,
                    ) is Ok by {
                        assert(out@[q].0 == metrics@[q].0);
                    }
                }
                return Err(e);
            },
        }
        p += 1;
    }
    Ok(out)
}

/// The finite entries of a series, in order: what remains once the
/// undefined ratios (NaN or infinite bit patterns) are filtered out.
pub open spec fn finite_of(s: Seq<u64>) -> Seq<u64>
    decreases s.len(),
{
    if s.len() == 0 {
        Seq::empty()
    } else {
        finite_of(s.drop_last()) + if f64_bits_is_finite(s.last()) {
            seq![s.last()]
        } else {
            Seq::empty()
        }
    }
}

/// Drops every non-finite entry from a series.
#[verifier::loop_isolation(false)]
pub fn finite_only(v: &Vec<u64>) -> (r: Vec<u64>)
    ensures
        r@ == finite_of(v@),
{
    let n = v.len();
    let mut r: Vec<u64> = Vec::new();
    let mut i: usize = 0;
    proof {
        assert(v@.take(0) =~= Seq::<u64>::empty());
        assert(r@ =~= finite_of(v@.take(0)));
    }
    while i < n
        invariant
            i <= n,
            n == v@.len(),
            r@ == finite_of(v@.take(i as int)),
        decreases n - i,
    {
        proof {
            assert(v@.take(i + 1).drop_last() =~= v@.take(i as int));
            assert(v@.take(i + 1).last() == v@[i as int]);
        }
        let ghost pre = r@;
        if is_finite_bits(v[i]) {
            r.push(v[i]);
            proof {
                assert(r@ =~= pre + seq![v@[i as int]]);
            }
        } else {
            proof {
                assert(pre + Seq::<u64>::empty() =~= pre);
            }
        }
        i += 1;
    }
    proof {
        assert(v@.take(n as int) =~= v@);
    }
    r
}

} // verus!
