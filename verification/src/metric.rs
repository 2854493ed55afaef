//! One metric's identity and the unified key codec.
//!
//! A metric is a name plus a label map ordered by key; its unified key is
//! the single token `name&k1=v1&k2=v2...` with the labels in key order.
//! Because the labels are kept sorted, encoding is canonical: two metrics
//! with the same name and the same label map encode to the same token.
//! Decoding splits on `&` and `=` and is the exact left inverse of
//! encoding whenever name, keys and values contain neither separator and
//! at least one label is present.

use vstd::prelude::*;
use crate::Error;
use crate::text::{lex_lt, str_lt, str_eq_str, str_to_chars, chars_to_string, split_token, split_seps, split_rec, sep_free, is_sep};

verus! {

/// One observation: identity (name + ordered labels), the cached unified
/// key token, and a value of any shape (a scalar for one sample, a vector
/// for a whole column).
#[derive(Debug, Clone)]
pub struct Metric<T> {
    pub name: String,
    /// Label pairs, strictly sorted by key in code-point order.
    pub labels: Vec<(String, String)>,
    /// Cached encoding; empty until first asked for.
    pub unified_name: String,
    pub value: T,
}

/// One time series: a metric identity carrying all its appended values.
pub type Column<T> = Metric<Vec<T>>;

/// Several time series, in schema order.
pub type Columns<T> = Vec<Column<T>>;

/// The character-level view of a label vector.
pub open spec fn label_views(labels: Seq<(String, String)>) -> Seq<(Seq<char>, Seq<char>)> {
    labels.map_values(|p: (String, String)| (p.0@, p.1@))
}

/// Strictly sorted by key: the invariant that makes the encoding
/// canonical and the keys distinct.
pub open spec fn labels_sorted(ls: Seq<(Seq<char>, Seq<char>)>) -> bool {
    forall|i: int, j: int|
        0 <= i < j < ls.len() ==> lex_lt(#[trigger] ls[i].0, #[trigger] ls[j].0)
}

/// The label encoding `&k=v` for each pair, in order.
pub open spec fn enc_labels(ls: Seq<(Seq<char>, Seq<char>)>) -> Seq<char>
    decreases ls.len(),
{
    if ls.len() == 0 {
        Seq::empty()
    } else {
        seq!['&'] + ls[0].0 + seq!['='] + ls[0].1 + enc_labels(ls.drop_first())
    }
}

/// The unified key token of a name and its ordered labels.
pub open spec fn encode_spec(name: Seq<char>, ls: Seq<(Seq<char>, Seq<char>)>) -> Seq<char> {
    name + enc_labels(ls)
}

/// Insertion into a key-sorted label vector: before the first key that is
/// not smaller; replaces on an equal key.
pub open spec fn lbl_insert(
    ls: Seq<(Seq<char>, Seq<char>)>,
    k: Seq<char>,
    v: Seq<char>,
) -> Seq<(Seq<char>, Seq<char>)>
    decreases ls.len(),
{
    if ls.len() == 0 {
        seq![(k, v)]
    } else if lex_lt(k, ls[0].0) {
        seq![(k, v)] + ls
    } else if k == ls[0].0 {
        seq![(k, v)] + ls.drop_first()
    } else {
        seq![ls[0]] + lbl_insert(ls.drop_first(), k, v)
    }
}

/// `lex_lt` never holds of a sequence and itself.
pub proof fn lemma_lex_irrefl(a: Seq<char>)
    ensures
        !lex_lt(a, a),
    decreases a.len(),
{
    if a.len() > 0 {
        lemma_lex_irrefl(a.drop_first());
    }
}

/// At most one direction of `lex_lt` holds.
pub proof fn lemma_lex_asym(a: Seq<char>, b: Seq<char>)
    ensures
        !(lex_lt(a, b) && lex_lt(b, a)),
    decreases a.len(),
{
    if a.len() > 0 && b.len() > 0 && a[0] == b[0] {
        lemma_lex_asym(a.drop_first(), b.drop_first());
    }
}

/// Two sequences are equal or ordered one way by `lex_lt`.
pub proof fn lemma_lex_total(a: Seq<char>, b: Seq<char>)
    ensures
        lex_lt(a, b) || lex_lt(b, a) || a == b,
    decreases a.len(),
{
    if a.len() == 0 && b.len() == 0 {
        assert(a =~= b);
    } else if a.len() > 0 && b.len() > 0 && a[0] == b[0] {
        lemma_lex_total(a.drop_first(), b.drop_first());
        if a.drop_first() == b.drop_first() {
            assert(a =~= seq![a[0]] + a.drop_first());
            assert(b =~= seq![b[0]] + b.drop_first());
        }
    }
}

/// `lex_lt` carries over chains.
pub proof fn lemma_lex_trans(a: Seq<char>, b: Seq<char>, c: Seq<char>)
    requires
        lex_lt(a, b),
        lex_lt(b, c),
    ensures
        lex_lt(a, c),
    decreases a.len(),
{
    if a.len() > 0 && b.len() > 0 && c.len() > 0 && a[0] == b[0] && b[0] == c[0] {
        lemma_lex_trans(a.drop_first(), b.drop_first(), c.drop_first());
    }
}

/// Inserting into a sorted label vector keeps it sorted, and the result
/// holds exactly the old pairs with the inserted key now bound to `v`.
pub proof fn lemma_lbl_insert_sorted(ls: Seq<(Seq<char>, Seq<char>)>, k: Seq<char>, v: Seq<char>)
    requires
        labels_sorted(ls),
    ensures
        labels_sorted(lbl_insert(ls, k, v)),
    decreases ls.len(),
{
    if ls.len() == 0 {
    } else if lex_lt(k, ls[0].0) {
        let r = seq![(k, v)] + ls;
        assert forall|i: int, j: int| 0 <= i < j < r.len() implies lex_lt(
            #[trigger] r[i].0,
            #[trigger] r[j].0,
        ) by {
            if i == 0 && j > 1 {
                lemma_lex_trans(k, ls[0].0, ls[j - 1].0);
            }
        }
    } else if k == ls[0].0 {
        let r = seq![(k, v)] + ls.drop_first();
        assert forall|i: int, j: int| 0 <= i < j < r.len() implies lex_lt(
            #[trigger] r[i].0,
            #[trigger] r[j].0,
        ) by {
            if i == 0 {
                assert(lex_lt(ls[0].0, ls[j].0));
            } else {
                assert(lex_lt(ls[i].0, ls[j].0));
            }
        }
    } else {
        lemma_lex_total(k, ls[0].0);
        lemma_lbl_insert_sorted(ls.drop_first(), k, v);
        let tail = lbl_insert(ls.drop_first(), k, v);
        let r = seq![ls[0]] + tail;
        assert forall|i: int, j: int| 0 <= i < j < r.len() implies lex_lt(
            #[trigger] r[i].0,
            #[trigger] r[j].0,
        ) by {
            if i == 0 {
                lemma_lbl_insert_keys_above(ls.drop_first(), k, v, ls[0].0, j - 1);
            }
        }
    }
}

/// A pivot below `k` and below every key of `ls` is below every key of
/// `lbl_insert(ls, k, v)`.
proof fn lemma_lbl_insert_keys_above(
    ls: Seq<(Seq<char>, Seq<char>)>,
    k: Seq<char>,
    v: Seq<char>,
    p: Seq<char>,
    j: int,
)
    requires
        labels_sorted(ls),
        0 <= j < lbl_insert(ls, k, v).len(),
        forall|i: int| 0 <= i < ls.len() ==> lex_lt(p, #[trigger] ls[i].0),
        lex_lt(p, k),
    ensures
        lex_lt(p, lbl_insert(ls, k, v)[j].0),
    decreases ls.len(),
{
    if ls.len() == 0 {
    } else if lex_lt(k, ls[0].0) {
    } else if k == ls[0].0 {
    } else {
        if j > 0 {
            lemma_lbl_insert_keys_above(ls.drop_first(), k, v, p, j - 1);
        }
    }
}

/// `lbl_insert` walks past a prefix whose keys are all below `k`.
proof fn lemma_lbl_insert_skip(ls: Seq<(Seq<char>, Seq<char>)>, k: Seq<char>, v: Seq<char>, i: int)
    requires
        labels_sorted(ls),
        0 <= i <= ls.len(),
        forall|j: int| 0 <= j < i ==> lex_lt(#[trigger] ls[j].0, k),
    ensures
        lbl_insert(ls, k, v) == ls.take(i) + lbl_insert(ls.skip(i), k, v),
    decreases i,
{
    if i == 0 {
        assert(ls.skip(0) =~= ls);
        assert(ls.take(0) + lbl_insert(ls, k, v) =~= lbl_insert(ls, k, v));
    } else {
        lemma_lex_asym(ls[0].0, k);
        lemma_lex_irrefl(ls[0].0);
        assert(!lex_lt(k, ls[0].0) && k != ls[0].0);
        lemma_lbl_insert_skip(ls.drop_first(), k, v, i - 1);
        assert(ls.drop_first().take(i - 1) =~= ls.take(i).drop_first());
        assert(ls.drop_first().skip(i - 1) =~= ls.skip(i));
        assert(seq![ls[0]] + (ls.take(i).drop_first() + lbl_insert(ls.skip(i), k, v)) =~= ls.take(
            i,
        ) + lbl_insert(ls.skip(i), k, v));
    }
}

/// Inserts a label into a key-sorted label vector, replacing the value on
/// an equal key.
pub fn insert_label(labels: &mut Vec<(String, String)>, k: String, v: String)
    requires
        labels_sorted(label_views(old(labels)@)),
    ensures
        label_views(final(labels)@) == lbl_insert(label_views(old(labels)@), k@, v@),
        labels_sorted(label_views(final(labels)@)),
{
    let ghost ls = label_views(labels@);
    proof {
        lemma_lbl_insert_sorted(ls, k@, v@);
    }
    let n = labels.len();
    let mut i: usize = 0;
    while i < n && str_lt(labels[i].0.as_str(), k.as_str())
        invariant
            i <= n,
            n == labels.len(),
            label_views(labels@) == ls,
            labels_sorted(ls),
            forall|j: int| 0 <= j < i ==> lex_lt(#[trigger] ls[j].0, k@),
        decreases n - i,
    {
        proof {
            assert(ls[i as int].0 == labels@[i as int].0@);
        }
        i += 1;
    }
    proof {
        if i < n {
            assert(ls[i as int].0 == labels@[i as int].0@);
            assert(!lex_lt(ls[i as int].0, k@));
        }
    }
    proof {
        lemma_lbl_insert_skip(ls, k@, v@, i as int);
    }
    if i >= n {
        proof {
            assert(ls.skip(i as int).len() == 0);
        }
        labels.push((k, v));
        proof {
            assert(label_views(labels@) =~= ls.take(i as int) + lbl_insert(
                ls.skip(i as int),
                k@,
                v@,
            ));
        }
    } else if str_eq_str(labels[i].0.as_str(), k.as_str()) {
        proof {
            assert(ls.skip(i as int)[0].0 == k@);
            lemma_lex_irrefl(k@);
        }
        let ghost lv = labels@;
        labels.remove(i);
        labels.insert(i, (k, v));
        proof {
            assert(labels@ =~= lv.remove(i as int).insert(i as int, (k, v)));
            let rhs = ls.take(i as int) + lbl_insert(ls.skip(i as int), k@, v@);
            assert(lbl_insert(ls.skip(i as int), k@, v@) == seq![(k@, v@)] + ls.skip(
                i as int,
            ).drop_first());
            assert(labels@.len() == lv.len());
            assert(rhs.len() == ls.len());
            assert forall|idx: int| 0 <= idx < ls.len() implies label_views(labels@)[idx]
                == rhs[idx] by {
                if idx < i {
                    assert(labels@[idx] == lv[idx]);
                    assert(rhs[idx] == ls.take(i as int)[idx]);
                } else if idx == i {
                    assert(labels@[idx] == (k, v));
                    assert(rhs[idx] == (k@, v@));
                } else {
                    assert(labels@[idx] == lv[idx]);
                    assert(rhs[idx] == ls.skip(i as int).drop_first()[idx - i - 1]);
                    assert(rhs[idx] == ls[idx]);
                }
            }
            assert(label_views(labels@) =~= rhs);
        }
    } else {
        proof {
            assert(ls.skip(i as int)[0].0 == ls[i as int].0);
            lemma_lex_total(k@, ls[i as int].0);
        }
        let ghost lv = labels@;
        labels.insert(i, (k, v));
        proof {
            let rhs = ls.take(i as int) + lbl_insert(ls.skip(i as int), k@, v@);
            assert(lbl_insert(ls.skip(i as int), k@, v@) == seq![(k@, v@)] + ls.skip(i as int));
            assert(labels@.len() == lv.len() + 1);
            assert(rhs.len() == ls.len() + 1);
            assert forall|idx: int| 0 <= idx < labels@.len() implies label_views(labels@)[idx]
                == rhs[idx] by {
                if idx < i {
                    assert(labels@[idx] == lv[idx]);
                    assert(rhs[idx] == ls.take(i as int)[idx]);
                } else if idx == i {
                    assert(labels@[idx] == (k, v));
                    assert(rhs[idx] == (k@, v@));
                } else {
                    assert(labels@[idx] == lv[idx - 1]);
                    assert(rhs[idx] == ls.skip(i as int)[idx - i - 1]);
                    assert(rhs[idx] == ls[idx - 1]);
                }
            }
            assert(label_views(labels@) =~= rhs);
        }
    }
}

/// Appending one pair extends the label encoding by `&k=v`.
proof fn lemma_enc_labels_snoc(ls: Seq<(Seq<char>, Seq<char>)>, p: (Seq<char>, Seq<char>))
    ensures
        enc_labels(ls.push(p)) == enc_labels(ls) + seq!['&'] + p.0 + seq!['='] + p.1,
    decreases ls.len(),
{
    if ls.len() == 0 {
        assert(ls.push(p).drop_first() =~= Seq::<(Seq<char>, Seq<char>)>::empty());
        assert(ls.push(p)[0] == p);
        assert(seq!['&'] + p.0 + seq!['='] + p.1 + enc_labels(Seq::empty()) =~= enc_labels(ls)
            + seq!['&'] + p.0 + seq!['='] + p.1);
    } else {
        assert(ls.push(p).drop_first() =~= ls.drop_first().push(p));
        lemma_enc_labels_snoc(ls.drop_first(), p);
        assert(ls.push(p)[0] == ls[0]);
        assert(seq!['&'] + ls[0].0 + seq!['='] + ls[0].1 + (enc_labels(ls.drop_first())
            + seq!['&'] + p.0 + seq!['='] + p.1) =~= (seq!['&'] + ls[0].0 + seq!['=']
            + ls[0].1 + enc_labels(ls.drop_first())) + seq!['&'] + p.0 + seq!['='] + p.1);
    }
}

impl<T> Metric<T> {
    /// The character-level view of the labels, in key order.
    pub open spec fn lbls(&self) -> Seq<(Seq<char>, Seq<char>)> {
        label_views(self.labels@)
    }

    /// The canonical token this metric encodes to.
    pub open spec fn key(&self) -> Seq<char> {
        encode_spec(self.name@, self.lbls())
    }

    /// Well-formed: labels strictly sorted by key; the cache is empty or
    /// holds exactly the encoding.
    pub open spec fn wf(&self) -> bool {
        &&& labels_sorted(self.lbls())
        &&& (self.unified_name@.len() == 0 || self.unified_name@ == self.key())
    }

    /// A fresh metric with no labels and an empty cache.
    pub fn new(name: String, value: T) -> (m: Metric<T>)
        ensures
            m.wf(),
            m.name@ == name@,
            m.lbls() == Seq::<(Seq<char>, Seq<char>)>::empty(),
            m.unified_name@.len() == 0,
            m.value == value,
    {
        let m = Metric { name, labels: Vec::new(), unified_name: String::new(), value };
        proof {
            assert(m.lbls() =~= Seq::<(Seq<char>, Seq<char>)>::empty());
        }
        m
    }

    /// Adds one label, keeping key order; on an equal key the new value
    /// wins. Only allowed while the token cache is still empty.
    pub fn add_label(&mut self, k: String, v: String)
        requires
            old(self).wf(),
            old(self).unified_name@.len() == 0,
        ensures
            final(self).wf(),
            final(self).unified_name@.len() == 0,
            final(self).name == old(self).name,
            final(self).value == old(self).value,
            final(self).lbls() == lbl_insert(old(self).lbls(), k@, v@),
    {
        insert_label(&mut self.labels, k, v);
    }

    /// The unified key token: `name`, then `&key=value` for each label in
    /// key order. Computed once and cached.
    pub fn unified_name(&mut self) -> (r: &str)
        requires
            old(self).wf(),
        ensures
            final(self).wf(),
            final(self).name == old(self).name,
            final(self).labels == old(self).labels,
            final(self).value == old(self).value,
            r@ == old(self).key(),
    {
        if self.unified_name.as_str().is_empty() {
            self.unified_name = encode_key(&self.name, &self.labels);
        }
        self.unified_name.as_str()
    }
}

impl<T> Metric<T> {
    /// Whether this metric's unified key precedes the other's in the
    /// deterministic total order on tokens (code-point order); the
    /// order is total by `lemma_lex_total` and `lemma_lex_asym`.
    pub fn precedes<U>(&self, other: &Metric<U>) -> (r: bool)
        ensures
            r == lex_lt(self.key(), other.key()),
    {
        let a = encode_key(&self.name, &self.labels);
        let b = encode_key(&other.name, &other.labels);
        str_lt(a.as_str(), b.as_str())
    }
}

/// Computes the unified key token of a name and its ordered labels.
pub fn encode_key(name: &String, labels: &Vec<(String, String)>) -> (r: String)
    ensures
        r@ == encode_spec(name@, label_views(labels@)),
{
    let ghost ls = label_views(labels@);
    let mut out = str_to_chars(name.as_str());
    let n = labels.len();
    let mut i: usize = 0;
    proof {
        assert(ls.take(0) =~= Seq::<(Seq<char>, Seq<char>)>::empty());
        assert(out@ =~= encode_spec(name@, ls.take(0)));
    }
    while i < n
        invariant
            i <= n,
            n == labels@.len(),
            ls == label_views(labels@),
            out@ == encode_spec(name@, ls.take(i as int)),
        decreases n - i,
    {
        out.push('&');
        let mut kc = str_to_chars(labels[i].0.as_str());
        out.append(&mut kc);
        out.push('=');
        let mut vc = str_to_chars(labels[i].1.as_str());
        out.append(&mut vc);
        proof {
            lemma_enc_labels_snoc(ls.take(i as int), ls[i as int]);
            assert(ls.take(i as int).push(ls[i as int]) =~= ls.take(i + 1));
            assert(out@ =~= encode_spec(name@, ls.take(i + 1)));
        }
        i += 1;
    }
    proof {
        assert(ls.take(n as int) =~= ls);
    }
    chars_to_string(&out)
}

/// The label vector decoded from the key/value pieces after the name:
/// pairs are taken left to right, and on a repeated key the leftmost
/// binding wins.
pub open spec fn labels_from_pairs(ps: Seq<Seq<char>>) -> Seq<(Seq<char>, Seq<char>)>
    decreases ps.len(),
{
    if ps.len() < 2 {
        Seq::empty()
    } else {
        lbl_insert(labels_from_pairs(ps.skip(2)), ps[0], ps[1])
    }
}

/// What decoding a token yields: the piece before the first separator is
/// the name and the rest pair up as labels; a token with an even piece
/// count, or no pieces beyond the name, is rejected.
pub open spec fn decode_spec(token: Seq<char>) -> Result<
    (Seq<char>, Seq<(Seq<char>, Seq<char>)>),
    Error,
> {
    let ps = split_seps(token);
    if ps.len() <= 1 || ps.len() % 2 == 0 {
        Err(Error::InvalidKeyEncoding)
    } else {
        Ok((ps[0], labels_from_pairs(ps.drop_first())))
    }
}

impl<T> Metric<T> {
    /// Decodes a unified key token back into a metric carrying `value`.
    /// Fails with `InvalidKeyEncoding` exactly when the token does not
    /// split into a name plus one or more key/value pairs.
    pub fn decode(token: &str, value: T) -> (r: Result<Metric<T>, Error>)
        ensures
            match r {
                Ok(m) => {
                    &&& decode_spec(token@) is Ok
                    &&& m.name@ == decode_spec(token@)->Ok_0.0
                    &&& m.lbls() == decode_spec(token@)->Ok_0.1
                    &&& m.wf()
                    &&& m.unified_name@.len() == 0
                    &&& m.value == value
                },
                Err(e) => decode_spec(token@) is Err && decode_spec(token@)->Err_0 == e,
            },
    {
        let parts = split_token(token);
        let np = parts.len();
        let ghost pviews = parts@.map_values(|p: String| p@);
        if np <= 1 || np % 2 == 0 {
            return Err(Error::InvalidKeyEncoding);
        }
        let name = parts[0].clone();
        let ghost pairs = pviews.drop_first();
        let mut labels: Vec<(String, String)> = Vec::new();
        let m = (np - 1) / 2;
        let mut t = m;
        proof {
            assert(pairs.skip(2 * m as int) =~= Seq::<Seq<char>>::empty());
            assert(label_views(labels@) =~= Seq::<(Seq<char>, Seq<char>)>::empty());
        }
        while t > 0
            invariant
                t <= m,
                np == 2 * m + 1,
                np == parts@.len(),
                pviews == parts@.map_values(|p: String| p@),
                pairs == pviews.drop_first(),
                labels_sorted(label_views(labels@)),
                label_views(labels@) == labels_from_pairs(pairs.skip(2 * t as int)),
            decreases t,
        {
            t -= 1;
            let k = parts[1 + 2 * t].clone();
            let v = parts[2 + 2 * t].clone();
            proof {
                assert(k@ == pviews[1 + 2 * t as int]);
                assert(v@ == pviews[2 + 2 * t as int]);
                assert(pairs.skip(2 * t as int)[0] == pviews[1 + 2 * t as int]);
                assert(pairs.skip(2 * t as int)[1] == pviews[2 + 2 * t as int]);
                assert(pairs.skip(2 * t as int).len() >= 2);
                assert(pairs.skip(2 * t as int).skip(2) =~= pairs.skip(2 * (t + 1) as int));
            }
            insert_label(&mut labels, k, v);
        }
        proof {
            assert(pairs.skip(0) =~= pairs);
        }
        let metric = Metric { name, labels, unified_name: String::new(), value };
        proof {
            assert(metric.name@ == pviews[0]);
        }
        Ok(metric)
    }
}

/// Splitting a separator-free piece consumes it whole.
proof fn lemma_split_sep_free(x: Seq<char>, cur: Seq<char>)
    requires
        sep_free(x),
    ensures
        split_rec(x, cur) == seq![cur + x],
    decreases x.len(),
{
    if x.len() == 0 {
        assert(cur + x =~= cur);
    } else {
        assert(!is_sep(x[0]));
        assert(sep_free(x.drop_first())) by {
            assert forall|i: int| 0 <= i < x.drop_first().len() implies !is_sep(
                #[trigger] x.drop_first()[i],
            ) by {
                assert(x.drop_first()[i] == x[i + 1]);
            }
        }
        lemma_split_sep_free(x.drop_first(), cur.push(x[0]));
        assert(cur.push(x[0]) + x.drop_first() =~= cur + x);
    }
}

/// A separator ends the piece read so far, whatever follows.
proof fn lemma_split_step(x: Seq<char>, c: char, r: Seq<char>, cur: Seq<char>)
    requires
        sep_free(x),
        is_sep(c),
    ensures
        split_rec(x + seq![c] + r, cur) == seq![cur + x] + split_rec(r, Seq::empty()),
    decreases x.len(),
{
    if x.len() == 0 {
        let s = x + seq![c] + r;
        assert(s[0] == c);
        assert(s.drop_first() =~= r);
        assert(cur + x =~= cur);
    } else {
        let s = x + seq![c] + r;
        assert(s[0] == x[0]);
        assert(!is_sep(x[0]));
        assert(s.drop_first() =~= x.drop_first() + seq![c] + r);
        assert(sep_free(x.drop_first())) by {
            assert forall|i: int| 0 <= i < x.drop_first().len() implies !is_sep(
                #[trigger] x.drop_first()[i],
            ) by {
                assert(x.drop_first()[i] == x[i + 1]);
            }
        }
        lemma_split_step(x.drop_first(), c, r, cur.push(x[0]));
        assert(cur.push(x[0]) + x.drop_first() =~= cur + x);
    }
}

/// The flattened key/value pieces of a label vector.
pub open spec fn flat_pairs(ls: Seq<(Seq<char>, Seq<char>)>) -> Seq<Seq<char>>
    decreases ls.len(),
{
    if ls.len() == 0 {
        Seq::empty()
    } else {
        seq![ls[0].0, ls[0].1] + flat_pairs(ls.drop_first())
    }
}

proof fn lemma_flat_pairs_len(ls: Seq<(Seq<char>, Seq<char>)>)
    ensures
        flat_pairs(ls).len() == 2 * ls.len(),
    decreases ls.len(),
{
    if ls.len() > 0 {
        lemma_flat_pairs_len(ls.drop_first());
    }
}

/// Whether every label key and value is free of the separators.
pub open spec fn labels_sep_free(ls: Seq<(Seq<char>, Seq<char>)>) -> bool {
    forall|i: int|
        0 <= i < ls.len() ==> sep_free((#[trigger] ls[i]).0) && sep_free(ls[i].1)
}

/// Splitting a separator-free piece followed by an encoded label vector
/// yields the piece and then the flattened pairs.
proof fn lemma_split_encoded(v: Seq<char>, ls: Seq<(Seq<char>, Seq<char>)>, cur: Seq<char>)
    requires
        sep_free(v),
        labels_sep_free(ls),
    ensures
        split_rec(v + enc_labels(ls), cur) == seq![cur + v] + flat_pairs(ls),
    decreases ls.len(),
{
    if ls.len() == 0 {
        assert(v + enc_labels(ls) =~= v);
        lemma_split_sep_free(v, cur);
        assert(seq![cur + v] + flat_pairs(ls) =~= seq![cur + v]);
    } else {
        let k = ls[0].0;
        let val = ls[0].1;
        let rest = ls.drop_first();
        assert(sep_free(k) && sep_free(val));
        assert(labels_sep_free(rest)) by {
            assert forall|i: int| 0 <= i < rest.len() implies sep_free((#[trigger] rest[i]).0)
                && sep_free(rest[i].1) by {
                assert(rest[i] == ls[i + 1]);
            }
        }
        let r1 = k + seq!['='] + (val + enc_labels(rest));
        assert(v + enc_labels(ls) =~= v + seq!['&'] + r1);
        lemma_split_step(v, '&', r1, cur);
        assert(split_rec(v + enc_labels(ls), cur) == seq![cur + v] + split_rec(
            r1,
            Seq::empty(),
        ));
        let r2 = val + enc_labels(rest);
        assert(r1 =~= k + seq!['='] + r2);
        lemma_split_step(k, '=', r2, Seq::empty());
        assert(Seq::<char>::empty() + k =~= k);
        lemma_split_encoded(val, rest, Seq::empty());
        assert(Seq::<char>::empty() + val =~= val);
        assert(seq![cur + v] + (seq![k] + (seq![val] + flat_pairs(rest))) =~= seq![cur + v]
            + flat_pairs(ls));
    }
}

/// Re-reading the flattened pairs of a sorted label vector gives that
/// vector back.
proof fn lemma_pairs_round_trip(ls: Seq<(Seq<char>, Seq<char>)>)
    requires
        labels_sorted(ls),
    ensures
        labels_from_pairs(flat_pairs(ls)) == ls,
    decreases ls.len(),
{
    if ls.len() == 0 {
        assert(labels_from_pairs(flat_pairs(ls)) =~= ls);
    } else {
        let tail = ls.drop_first();
        lemma_flat_pairs_len(tail);
        assert(flat_pairs(ls).len() >= 2);
        assert(flat_pairs(ls).skip(2) =~= flat_pairs(tail));
        lemma_pairs_round_trip(tail);
        assert(flat_pairs(ls)[0] == ls[0].0);
        assert(flat_pairs(ls)[1] == ls[0].1);
        if tail.len() == 0 {
            assert(lbl_insert(tail, ls[0].0, ls[0].1) =~= ls);
        } else {
            assert(lex_lt(ls[0].0, tail[0].0)) by {
                assert(tail[0] == ls[1]);
            }
            assert(lbl_insert(tail, ls[0].0, ls[0].1) =~= ls);
        }
    }
}

/// Round-trip law: decoding the encoding of any metric identity gives
/// back exactly its name and labels, provided the name, the label keys
/// and the label values contain neither `&` nor `=` and at least one
/// label is present (a token without labels is rejected by decoding).
pub proof fn lemma_round_trip(name: Seq<char>, ls: Seq<(Seq<char>, Seq<char>)>)
    requires
        sep_free(name),
        labels_sep_free(ls),
        labels_sorted(ls),
        ls.len() >= 1,
    ensures
        decode_spec(encode_spec(name, ls)) == Ok::<(Seq<char>, Seq<(Seq<char>, Seq<char>)>), Error>(
            (name, ls),
        ),
{
    lemma_split_encoded(name, ls, Seq::empty());
    assert(Seq::<char>::empty() + name =~= name);
    let ps = split_seps(encode_spec(name, ls));
    assert(ps == seq![name] + flat_pairs(ls));
    lemma_flat_pairs_len(ls);
    assert(ps.len() == 1 + 2 * ls.len());
    assert(ps[0] == name);
    assert(ps.drop_first() =~= flat_pairs(ls));
    lemma_pairs_round_trip(ls);
}

/// The label map a label vector denotes: earlier pairs shadow later
/// ones with the same key (there are none once the vector is sorted).
pub open spec fn labels_map(ls: Seq<(Seq<char>, Seq<char>)>) -> Map<Seq<char>, Seq<char>>
    decreases ls.len(),
{
    if ls.len() == 0 {
        Map::empty()
    } else {
        labels_map(ls.drop_first()).insert(ls[0].0, ls[0].1)
    }
}

/// Every key of the vector is in its map.
proof fn lemma_labels_map_contains(ls: Seq<(Seq<char>, Seq<char>)>, i: int)
    requires
        0 <= i < ls.len(),
    ensures
        labels_map(ls).dom().contains(ls[i].0),
    decreases ls.len(),
{
    if i > 0 {
        lemma_labels_map_contains(ls.drop_first(), i - 1);
        assert(ls.drop_first()[i - 1] == ls[i]);
    }
}

/// Every key of the map is a key of the vector.
proof fn lemma_labels_map_only(ls: Seq<(Seq<char>, Seq<char>)>, k: Seq<char>) -> (i: int)
    requires
        labels_map(ls).dom().contains(k),
    ensures
        0 <= i < ls.len() && ls[i].0 == k,
    decreases ls.len(),
{
    if ls.len() == 0 {
        0
    } else if ls[0].0 == k {
        0
    } else {
        lemma_labels_map_only(ls.drop_first(), k) + 1
    }
}

/// Dropping the head of a sorted vector removes exactly its key from the
/// map.
proof fn lemma_labels_map_tail(ls: Seq<(Seq<char>, Seq<char>)>)
    requires
        labels_sorted(ls),
        ls.len() > 0,
    ensures
        labels_map(ls.drop_first()) == labels_map(ls).remove(ls[0].0),
{
    let tail = ls.drop_first();
    if labels_map(tail).dom().contains(ls[0].0) {
        let i = lemma_labels_map_only(tail, ls[0].0);
        assert(tail[i] == ls[i + 1]);
        assert(lex_lt(ls[0].0, ls[i + 1].0));
        lemma_lex_irrefl(ls[0].0);
    }
    assert(labels_map(tail) =~= labels_map(ls).remove(ls[0].0));
}

/// A sorted label vector is determined by its map: sortedness makes the
/// representation canonical.
proof fn lemma_sorted_canonical(ls: Seq<(Seq<char>, Seq<char>)>, ms: Seq<(Seq<char>, Seq<char>)>)
    requires
        labels_sorted(ls),
        labels_sorted(ms),
        labels_map(ls) == labels_map(ms),
    ensures
        ls == ms,
    decreases ls.len(),
{
    if ls.len() == 0 && ms.len() == 0 {
        assert(ls =~= ms);
    } else if ls.len() == 0 {
        lemma_labels_map_contains(ms, 0);
        assert(labels_map(ls).dom().contains(ms[0].0));
    } else if ms.len() == 0 {
        lemma_labels_map_contains(ls, 0);
        assert(labels_map(ms).dom().contains(ls[0].0));
    } else {
        let kl = ls[0].0;
        let km = ms[0].0;
        lemma_labels_map_contains(ls, 0);
        let j = lemma_labels_map_only(ms, kl);
        lemma_labels_map_contains(ms, 0);
        let i = lemma_labels_map_only(ls, km);
        if j > 0 && i > 0 {
            assert(lex_lt(km, ms[j].0));
            assert(lex_lt(kl, ls[i].0));
            lemma_lex_asym(kl, km);
            assert(false);
        }
        assert(kl == km);
        assert(labels_map(ls)[kl] == ls[0].1);
        assert(labels_map(ms)[km] == ms[0].1);
        assert(ls[0] == ms[0]);
        lemma_labels_map_tail(ls);
        lemma_labels_map_tail(ms);
        assert(labels_sorted(ls.drop_first())) by {
            assert forall|p: int, q: int|
                0 <= p < q < ls.drop_first().len() implies lex_lt(
                #[trigger] ls.drop_first()[p].0,
                #[trigger] ls.drop_first()[q].0,
            ) by {
                assert(ls.drop_first()[p] == ls[p + 1]);
                assert(ls.drop_first()[q] == ls[q + 1]);
            }
        }
        assert(labels_sorted(ms.drop_first())) by {
            assert forall|p: int, q: int|
                0 <= p < q < ms.drop_first().len() implies lex_lt(
                #[trigger] ms.drop_first()[p].0,
                #[trigger] ms.drop_first()[q].0,
            ) by {
                assert(ms.drop_first()[p] == ms[p + 1]);
                assert(ms.drop_first()[q] == ms[q + 1]);
            }
        }
        lemma_sorted_canonical(ls.drop_first(), ms.drop_first());
        assert(ls =~= seq![ls[0]] + ls.drop_first());
        assert(ms =~= seq![ms[0]] + ms.drop_first());
    }
}

/// Inserting a label updates the denoted map by exactly that binding.
pub proof fn lemma_lbl_insert_map(ls: Seq<(Seq<char>, Seq<char>)>, k: Seq<char>, v: Seq<char>)
    requires
        labels_sorted(ls),
    ensures
        labels_map(lbl_insert(ls, k, v)) == labels_map(ls).insert(k, v),
    decreases ls.len(),
{
    if ls.len() == 0 {
        let r = lbl_insert(ls, k, v);
        assert(r == seq![(k, v)]);
        assert(r[0] == (k, v));
        assert(r.drop_first() =~= ls);
        assert(labels_map(r) == labels_map(ls).insert(k, v));
    } else if lex_lt(k, ls[0].0) {
        let r = lbl_insert(ls, k, v);
        assert(r == seq![(k, v)] + ls);
        assert(r[0] == (k, v));
        assert(r.drop_first() =~= ls);
        assert(labels_map(r) == labels_map(ls).insert(k, v));
    } else if k == ls[0].0 {
        let r = lbl_insert(ls, k, v);
        assert(r == seq![(k, v)] + ls.drop_first());
        assert(r[0] == (k, v));
        assert(r.drop_first() =~= ls.drop_first());
        assert(labels_map(r) == labels_map(ls.drop_first()).insert(k, v));
        assert(labels_map(ls) == labels_map(ls.drop_first()).insert(ls[0].0, ls[0].1));
        assert(labels_map(ls).insert(k, v) =~= labels_map(ls.drop_first()).insert(k, v));
    } else {
        lemma_lex_total(k, ls[0].0);
        assert(lex_lt(ls[0].0, k));
        lemma_lex_irrefl(ls[0].0);
        assert(labels_sorted(ls.drop_first())) by {
            assert forall|p: int, q: int|
                0 <= p < q < ls.drop_first().len() implies lex_lt(
                #[trigger] ls.drop_first()[p].0,
                #[trigger] ls.drop_first()[q].0,
            ) by {
                assert(ls.drop_first()[p] == ls[p + 1]);
                assert(ls.drop_first()[q] == ls[q + 1]);
            }
        }
        lemma_lbl_insert_map(ls.drop_first(), k, v);
        let mid = lbl_insert(ls.drop_first(), k, v);
        assert(lbl_insert(ls, k, v) == seq![ls[0]] + mid);
        assert((seq![ls[0]] + mid)[0] == ls[0]);
        assert((seq![ls[0]] + mid).drop_first() =~= mid);
        assert(labels_map(seq![ls[0]] + mid) == labels_map(mid).insert(ls[0].0, ls[0].1));
        assert(labels_map(mid) == labels_map(ls.drop_first()).insert(k, v));
        assert(labels_map(ls) == labels_map(ls.drop_first()).insert(ls[0].0, ls[0].1));
        assert(k != ls[0].0);
        assert(labels_map(ls.drop_first()).insert(k, v).insert(ls[0].0, ls[0].1)
            =~= labels_map(ls.drop_first()).insert(ls[0].0, ls[0].1).insert(k, v));
    }
}

/// Determinism law: the unified key token is a function of the name and
/// the label *map* alone. Two well-formed metrics that carry the same
/// name and the same label bindings — in whatever order the labels were
/// added — encode to the identical token.
pub proof fn lemma_encode_deterministic<T, U>(a: &Metric<T>, b: &Metric<U>)
    requires
        a.wf(),
        b.wf(),
        a.name@ == b.name@,
        labels_map(a.lbls()) == labels_map(b.lbls()),
    ensures
        a.key() == b.key(),
{
    lemma_sorted_canonical(a.lbls(), b.lbls());
}

} // verus!
