//! The persistent document: a mapping from string keys to ordered,
//! duplicate-free sequences of string values.

use vstd::prelude::*;
use vstd::string::*;

verus! {

/// One key together with its ordered sequence of values.
pub struct Entry {
    pub key: String,
    pub values: Vec<String>,
}

impl View for Entry {
    type V = (Seq<char>, Seq<Seq<char>>);

    open spec fn view(&self) -> (Seq<char>, Seq<Seq<char>>) {
        (self.key@, self.values.deep_view())
    }
}

/// The whole persisted mapping, in insertion order of its keys.
pub struct Document {
    pub entries: Vec<Entry>,
}

impl View for Document {
    type V = Seq<(Seq<char>, Seq<Seq<char>>)>;

    open spec fn view(&self) -> Seq<(Seq<char>, Seq<Seq<char>>)> {
        self.entries.deep_view()
    }
}

impl DeepView for Entry {
    type V = (Seq<char>, Seq<Seq<char>>);

    open spec fn deep_view(&self) -> (Seq<char>, Seq<Seq<char>>) {
        self@
    }
}

/// Index of the first entry holding key `k`, or -1 if no entry does.
pub open spec fn find_key(d: Seq<(Seq<char>, Seq<Seq<char>>)>, k: Seq<char>) -> int
    decreases d.len(),
{
    if d.len() == 0 {
        -1
    } else if d[0].0 == k {
        0
    } else {
        let r = find_key(d.drop_first(), k);
        if r == -1 {
            -1
        } else {
            r + 1
        }
    }
}

/// The values stored under `k`, if any entry holds that key.
pub open spec fn get_spec(d: Seq<(Seq<char>, Seq<Seq<char>>)>, k: Seq<char>) -> Option<
    Seq<Seq<char>>,
> {
    let i = find_key(d, k);
    if i == -1 {
        None
    } else {
        Some(d[i].1)
    }
}

/// The document after a put of `v` under `k`: a missing key is created with
/// the singleton sequence, a value already present is ignored, and otherwise
/// `v` is appended at the end of the key's sequence.
pub open spec fn put_spec(
    d: Seq<(Seq<char>, Seq<Seq<char>>)>,
    k: Seq<char>,
    v: Seq<char>,
) -> Seq<(Seq<char>, Seq<Seq<char>>)> {
    let i = find_key(d, k);
    if i == -1 {
        d.push((k, seq![v]))
    } else if d[i].1.contains(v) {
        d
    } else {
        d.update(i, (d[i].0, d[i].1.push(v)))
    }
}

/// No two entries share a key.
pub open spec fn keys_distinct(d: Seq<(Seq<char>, Seq<Seq<char>>)>) -> bool {
    forall|i: int, j: int| 0 <= i < j < d.len() ==> d[i].0 != d[j].0
}

/// Within every entry, no two values are equal.
pub open spec fn values_distinct(d: Seq<(Seq<char>, Seq<Seq<char>>)>) -> bool {
    forall|i: int, a: int, b: int|
        0 <= i < d.len() && 0 <= a < b < d[i].1.len() ==> d[i].1[a] != d[i].1[b]
}

/// Properties of `find_key`: it is -1 exactly when no entry holds the key,
/// and otherwise it is the position of the first entry that does.
pub proof fn lemma_find_key(d: Seq<(Seq<char>, Seq<Seq<char>>)>, k: Seq<char>)
    ensures
        find_key(d, k) == -1 || 0 <= find_key(d, k) < d.len(),
        (find_key(d, k) == -1) <==> (forall|j: int| 0 <= j < d.len() ==> d[j].0 != k),
        find_key(d, k) >= 0 ==> d[find_key(d, k)].0 == k,
        find_key(d, k) >= 0 ==> forall|j: int| 0 <= j < find_key(d, k) ==> d[j].0 != k,
    decreases d.len(),
{
    if d.len() == 0 {
    } else if d[0].0 == k {
    } else {
        lemma_find_key(d.drop_first(), k);
        let r = find_key(d.drop_first(), k);
        if r == -1 {
            assert forall|j: int| 0 <= j < d.len() implies d[j].0 != k by {
                if j >= 1 {
                    assert(d.drop_first()[j - 1] == d[j]);
                }
            }
        } else {
            assert(d[r + 1].0 == d.drop_first()[r].0);
            assert forall|j: int| 0 <= j < r + 1 implies d[j].0 != k by {
                if j >= 1 {
                    assert(d.drop_first()[j - 1] == d[j]);
                }
            }
        }
    }
}

/// String equality on slices, with the meaning of equal views.
pub fn str_eq(a: &str, b: &str) -> (r: bool)
    ensures
        r == (a@ == b@),
{
    let alen = a.unicode_len();
    let blen = b.unicode_len();
    if alen != blen {
        assert(a@ != b@);
        return false;
    }
    let mut i: usize = 0;
    while i < alen
        invariant
            i <= alen,
            alen == a@.len(),
            alen == b@.len(),
            forall|j: int| 0 <= j < i ==> a@[j] == b@[j],
        decreases alen - i,
    {
        if a.get_char(i) != b.get_char(i) {
            assert(a@ != b@);
            return false;
        }
        i = i + 1;
    }
    assert(a@ =~= b@);
    true
}

/// An out-of-range index into a key's value sequence.
#[derive(Debug)]
pub struct IndexError;

impl Document {
    /// The document's invariant: keys unique, values duplicate-free per key.
    pub open spec fn inv(&self) -> bool {
        keys_distinct(self@) && values_distinct(self@)
    }

    /// The empty document.
    pub fn new() -> (r: Document)
        ensures
            r@ == Seq::<(Seq<char>, Seq<Seq<char>>)>::empty(),
            r.inv(),
    {
        let r = Document { entries: Vec::new() };
        proof {
            assert(r@ =~= Seq::<(Seq<char>, Seq<Seq<char>>)>::empty());
        }
        r
    }

    /// All values stored under `key`, in insertion order, or `None` when the
    /// key is absent.
    pub fn get<'a>(&'a self, key: &str) -> (r: Option<&'a Vec<String>>)
        ensures
            match r {
                Some(vs) => get_spec(self@, key@) == Some(vs.deep_view()),
                None => get_spec(self@, key@) is None,
            },
    {
        let n = self.entries.len();
        let mut i: usize = 0;
        while i < n
            invariant
                i <= n,
                n == self@.len(),
                self@.len() == self.entries@.len(),
                forall|j: int| 0 <= j < i ==> self@[j].0 != key@,
            decreases n - i,
        {
            assert(self@[i as int] == self.entries@[i as int].deep_view());
            if str_eq(self.entries[i].key.as_str(), key) {
                proof {
                    lemma_find_key(self@, key@);
                    assert(find_key(self@, key@) == i) by {
                        if find_key(self@, key@) == -1 {
                            assert(self@[i as int].0 == key@);
                        }
                    }
                }
                return Some(&self.entries[i].values);
            }
            i = i + 1;
        }
        proof {
            lemma_find_key(self@, key@);
        }
        None
    }

    /// The value at zero-based `index` within `values`; an index at or past
    /// the end of the sequence is an `IndexError`.
    pub fn get_at<'a>(values: &'a Vec<String>, index: usize) -> (r: Result<&'a String, IndexError>)
        ensures
            (r is Ok) <==> index < values@.len(),
            r is Ok ==> r->Ok_0@ == values.deep_view()[index as int],
    {
        if index < values.len() {
            Ok(&values[index])
        } else {
            Err(IndexError)
        }
    }

    /// Append-if-absent. An empty value is rejected and nothing changes;
    /// otherwise the document becomes `put_spec` of the old one, and the
    /// invariant is preserved.
    pub fn put(&mut self, key: &str, value: &str) -> (ok: bool)
        ensures
            ok == (value@.len() != 0),
            !ok ==> final(self)@ == old(self)@,
            ok ==> final(self)@ == put_spec(old(self)@, key@, value@),
            old(self).inv() ==> final(self).inv(),
    {
        if value.is_empty() {
            return false;
        }
        let ghost d0 = self@;
        let ghost e0 = self.entries@;
        let n = self.entries.len();
        let mut i: usize = 0;
        while i < n
            invariant
                i <= n,
                n == self@.len(),
                self@.len() == self.entries@.len(),
                self@ == d0,
                self.entries@ == e0,
                d0 == old(self)@,
                value@.len() != 0,
                forall|j: int| 0 <= j < i ==> self@[j].0 != key@,
            decreases n - i,
        {
            assert(self@[i as int] == self.entries@[i as int].deep_view());
            if str_eq(self.entries[i].key.as_str(), key) {
                proof {
                    lemma_find_key(d0, key@);
                    assert(find_key(d0, key@) == i) by {
                        if find_key(d0, key@) == -1 {
                            assert(d0[i as int].0 == key@);
                        }
                    }
                }
                // the key exists: append the value unless it is already there
                let m = self.entries[i].values.len();
                let mut j: usize = 0;
                while j < m
                    invariant
                        j <= m,
                        i < self.entries@.len(),
                        m == self.entries@[i as int].values@.len(),
                        self@ == d0,
                        self.entries@ == e0,
                        d0 == old(self)@,
                        value@.len() != 0,
                        find_key(d0, key@) == i,
                        d0[i as int] == self.entries@[i as int].deep_view(),
                        forall|t: int| 0 <= t < j ==> d0[i as int].1[t] != value@,
                    decreases m - j,
                {
                    if str_eq(self.entries[i].values[j].as_str(), value) {
                        proof {
                            assert(d0[i as int].1[j as int] == value@);
                            assert(d0[i as int].1.contains(value@));
                        }
                        return true;
                    }
                    j = j + 1;
                }
                proof {
                    assert(!d0[i as int].1.contains(value@)) by {
                        if d0[i as int].1.contains(value@) {
                            let t = choose|t: int|
                                0 <= t < d0[i as int].1.len() && d0[i as int].1[t] == value@;
                            assert(d0[i as int].1[t] != value@);
                        }
                    }
                }
                let v_owned = value.to_owned();
                self.entries[i].values.push(v_owned);
                proof {
                    let d2 = d0.update(i as int, (d0[i as int].0, d0[i as int].1.push(value@)));
                    assert forall|x: int| 0 <= x < self@.len() implies self@[x] == d2[x] by {
                        if x == i {
                            assert(self.entries@[x].key@ == e0[x].key@);
                            assert(self.entries@[x].values@ == e0[x].values@.push(v_owned));
                            assert(e0[x].deep_view() == d0[x]);
                            assert(self.entries@[x].values.deep_view() =~= d0[x].1.push(value@));
                        } else {
                            assert(self.entries@[x] == e0[x]);
                            assert(e0[x].deep_view() == d0[x]);
                        }
                    }
                    assert(self@ =~= d2);
                    if keys_distinct(d0) && values_distinct(d0) {
                        lemma_put_preserves_inv(d0, key@, value@);
                    }
                }
                return true;
            }
            i = i + 1;
        }
        proof {
            lemma_find_key(d0, key@);
        }
        let mut vs: Vec<String> = Vec::new();
        vs.push(value.to_owned());
        self.entries.push(Entry { key: key.to_owned(), values: vs });
        proof {
            let d2 = d0.push((key@, seq![value@]));
            assert forall|x: int| 0 <= x < self@.len() implies self@[x] == d2[x] by {
                if x < d0.len() {
                    assert(self.entries@[x] == e0[x]);
                    assert(e0[x].deep_view() == d0[x]);
                } else {
                    assert(self.entries@[x].key@ == key@);
                    assert(self.entries@[x].values.deep_view() =~= seq![value@]);
                }
            }
            assert(self@ =~= d2);
            if keys_distinct(d0) && values_distinct(d0) {
                lemma_put_preserves_inv(d0, key@, value@);
            }
        }
        true
    }
}

/// If `i` is the position of the first entry holding `k`, then `find_key`
/// returns `i`.
pub proof fn lemma_find_key_at(d: Seq<(Seq<char>, Seq<Seq<char>>)>, k: Seq<char>, i: int)
    requires
        0 <= i < d.len(),
        d[i].0 == k,
        forall|j: int| 0 <= j < i ==> d[j].0 != k,
    ensures
        find_key(d, k) == i,
{
    lemma_find_key(d, k);
    let f = find_key(d, k);
    if f == -1 {
        assert(d[i].0 != k);
    } else if f < i {
        assert(d[f].0 != k);
    } else if f > i {
        assert(d[i].0 != k);
    }
}

/// Idempotence: a second put of the same key and value changes nothing,
/// because after the first put the value is present under the key.
pub proof fn lemma_put_idempotent(d: Seq<(Seq<char>, Seq<Seq<char>>)>, k: Seq<char>, v: Seq<char>)
    ensures
        put_spec(put_spec(d, k, v), k, v) == put_spec(d, k, v),
{
    lemma_find_key(d, k);
    let i = find_key(d, k);
    if i == -1 {
        let d1 = d.push((k, seq![v]));
        lemma_find_key_at(d1, k, d.len() as int);
        assert(d1[d.len() as int].1 == seq![v]);
        assert(seq![v][0] == v);
        assert(seq![v].contains(v));
        assert(put_spec(d1, k, v) == d1);
    } else if d[i].1.contains(v) {
    } else {
        let d1 = d.update(i, (d[i].0, d[i].1.push(v)));
        assert forall|j: int| 0 <= j < i implies d1[j].0 != k by {
            assert(d1[j] == d[j]);
        }
        lemma_find_key_at(d1, k, i);
        assert(d1[i].1 == d[i].1.push(v));
        assert(d1[i].1[d[i].1.len() as int] == v);
        assert(d1[i].1.contains(v));
        assert(put_spec(d1, k, v) == d1);
    }
}

/// Order preservation: three puts of distinct values under a fresh key leave
/// exactly those values under the key, in insertion order.
pub proof fn lemma_put_order(
    d: Seq<(Seq<char>, Seq<Seq<char>>)>,
    k: Seq<char>,
    v1: Seq<char>,
    v2: Seq<char>,
    v3: Seq<char>,
)
    requires
        find_key(d, k) == -1,
        v1 != v2,
        v1 != v3,
        v2 != v3,
    ensures
        get_spec(put_spec(put_spec(put_spec(d, k, v1), k, v2), k, v3), k) == Some(
            seq![v1, v2, v3],
        ),
{
    lemma_find_key(d, k);
    let n = d.len() as int;
    let d1 = d.push((k, seq![v1]));
    lemma_find_key_at(d1, k, n);
    assert(!d1[n].1.contains(v2)) by {
        if d1[n].1.contains(v2) {
            let t = choose|t: int| 0 <= t < seq![v1].len() && seq![v1][t] == v2;
            assert(seq![v1][t] == v1);
        }
    }
    let d2 = d1.update(n, (d1[n].0, d1[n].1.push(v2)));
    assert(put_spec(d1, k, v2) == d2);
    assert forall|j: int| 0 <= j < n implies d2[j].0 != k by {
        assert(d2[j] == d[j]);
    }
    lemma_find_key_at(d2, k, n);
    assert(d2[n].1 == seq![v1].push(v2));
    assert(!d2[n].1.contains(v3)) by {
        if d2[n].1.contains(v3) {
            let t = choose|t: int| 0 <= t < d2[n].1.len() && d2[n].1[t] == v3;
            assert(seq![v1].push(v2)[t] == v3);
            if t == 0 {
                assert(v1 == v3);
            } else {
                assert(v2 == v3);
            }
        }
    }
    let d3 = d2.update(n, (d2[n].0, d2[n].1.push(v3)));
    assert(put_spec(d2, k, v3) == d3);
    assert forall|j: int| 0 <= j < n implies d3[j].0 != k by {
        assert(d3[j] == d[j]);
    }
    lemma_find_key_at(d3, k, n);
    assert(d3[n].1 =~= seq![v1, v2, v3]);
}

/// `put_spec` preserves the document invariant.
pub proof fn lemma_put_preserves_inv(d: Seq<(Seq<char>, Seq<Seq<char>>)>, k: Seq<char>, v: Seq<char>)
    requires
        keys_distinct(d) && values_distinct(d),
    ensures
        keys_distinct(put_spec(d, k, v)),
        values_distinct(put_spec(d, k, v)),
{
    lemma_find_key(d, k);
    let i = find_key(d, k);
    if i == -1 {
        let d2 = d.push((k, seq![v]));
        assert forall|a: int, b: int| 0 <= a < b < d2.len() implies d2[a].0 != d2[b].0 by {
            if b == d.len() {
                assert(d2[a] == d[a]);
            }
        }
        assert(values_distinct(d2)) by {
            assert forall|x: int, a: int, b: int|
                0 <= x < d2.len() && 0 <= a < b < d2[x].1.len() implies d2[x].1[a] != d2[x].1[b] by {
                if x < d.len() {
                    assert(d2[x] == d[x]);
                } else {
                    assert(d2[x].1 =~= seq![v]);
                }
            }
        }
    } else if d[i].1.contains(v) {
    } else {
        let d2 = d.update(i, (d[i].0, d[i].1.push(v)));
        assert forall|a: int, b: int| 0 <= a < b < d2.len() implies d2[a].0 != d2[b].0 by {
            assert(d2[a].0 == d[a].0);
            assert(d2[b].0 == d[b].0);
        }
        assert forall|x: int, a: int, b: int|
            0 <= x < d2.len() && 0 <= a < b < d2[x].1.len() implies d2[x].1[a] != d2[x].1[b] by {
            if x != i {
                assert(d2[x] == d[x]);
            } else {
                if b == d[i].1.len() {
                    assert(d2[i].1[b] == v);
                    assert(d2[i].1[a] == d[i].1[a]);
                    assert(!d[i].1.contains(v));
                    assert(d[i].1[a] != v);
                } else {
                    assert(d2[i].1[a] == d[i].1[a]);
                    assert(d2[i].1[b] == d[i].1[b]);
                }
            }
        }
    }
}


} // verus!
