//! The summaries that the consumers report: a map from names to numbers,
//! texts or nested maps, which the server sends as a JSON object. As in a
//! JSON object of the server, the names are kept in the order of `String`.

use vstd::prelude::*;
use crate::text::chars_of;

verus! {

/// A value of a summary.
#[derive(Debug)]
pub enum DataValue {
    Number(usize),
    Text(String),
    Object(DataMap),
}

/// A summary: entries with distinct names, by increasing name (see `wf`).
#[derive(Debug)]
pub struct DataMap {
    pub entries: Vec<(String, DataValue)>,
}

// ---------------------------------------------------------------- the order of names

/// `a` comes before `b` in the order of `String`, from index `i` on (the
/// characters before `i` being equal): by character code at the first
/// difference, a proper prefix first.
pub open spec fn key_lt_from(a: Seq<char>, b: Seq<char>, i: nat) -> bool
    decreases a.len() - i,
{
    if i >= a.len() {
        i < b.len()
    } else if i >= b.len() {
        false
    } else if a[i as int] != b[i as int] {
        (a[i as int] as u32) < (b[i as int] as u32)
    } else {
        key_lt_from(a, b, i + 1)
    }
}

/// `a` comes before `b` in the order of `String`.
pub open spec fn key_lt(a: Seq<char>, b: Seq<char>) -> bool {
    key_lt_from(a, b, 0)
}

proof fn lemma_key_lt_irreflexive(a: Seq<char>, i: nat)
    ensures
        !key_lt_from(a, a, i),
    decreases a.len() - i,
{
    if i < a.len() {
        lemma_key_lt_irreflexive(a, i + 1);
    }
}

proof fn lemma_key_lt_pair(a: Seq<char>, b: Seq<char>, i: nat)
    requires
        i <= a.len(),
        i <= b.len(),
    ensures
        key_lt_from(a, b, i) ==> !key_lt_from(b, a, i),
        a.skip(i as int) != b.skip(i as int) ==> key_lt_from(a, b, i) || key_lt_from(b, a, i),
    decreases a.len() - i,
{
    if i < a.len() && i < b.len() && a[i as int] == b[i as int] {
        lemma_key_lt_pair(a, b, i + 1);
        assert(a.skip(i as int) =~= seq![a[i as int]] + a.skip(i + 1int));
        assert(b.skip(i as int) =~= seq![b[i as int]] + b.skip(i + 1int));
    } else if i < a.len() && i < b.len() {
        vstd::utf8::char_u32_cast(a[i as int], a[i as int] as u32);
        vstd::utf8::char_u32_cast(b[i as int], b[i as int] as u32);
        assert((a[i as int] as u32) != (b[i as int] as u32));
    } else if i >= a.len() && i >= b.len() {
        assert(a.skip(i as int) =~= b.skip(i as int));
    }
}

proof fn lemma_key_lt_transitive(a: Seq<char>, b: Seq<char>, c: Seq<char>, i: nat)
    ensures
        key_lt_from(a, b, i) && key_lt_from(b, c, i) ==> key_lt_from(a, c, i),
    decreases a.len() - i,
{
    if i < a.len() && i < b.len() && i < c.len() && a[i as int] == b[i as int] && b[i as int] == c[
        i as int
    ] {
        lemma_key_lt_transitive(a, b, c, i + 1);
    }
}

/// The order of names is strict and total.
pub proof fn lemma_key_lt(a: Seq<char>, b: Seq<char>, c: Seq<char>)
    ensures
        !key_lt(a, a),
        key_lt(a, b) ==> !key_lt(b, a),
        key_lt(a, b) && key_lt(b, c) ==> key_lt(a, c),
        a != b ==> key_lt(a, b) || key_lt(b, a),
{
    assert(a.skip(0) =~= a);
    assert(b.skip(0) =~= b);
    lemma_key_lt_irreflexive(a, 0);
    lemma_key_lt_pair(a, b, 0);
    lemma_key_lt_transitive(a, b, c, 0);
}

/// The order of names is that of `String`: a proper prefix comes first, and
/// after a common prefix, the smaller character code comes first.
pub proof fn lemma_key_lt_lexicographic(p: Seq<char>, x: Seq<char>, y: Seq<char>, a: char, b: char)
    requires
        (a as u32) < (b as u32),
    ensures
        x.len() > 0 ==> key_lt(p, p + x),
        key_lt(p + seq![a] + x, p + seq![b] + y),
    decreases p.len(),
{
    if p.len() > 0 {
        lemma_key_lt_lexicographic(p.drop_first(), x, y, a, b);
        lemma_key_lt_shift(p, p + x);
        lemma_key_lt_shift(p + seq![a] + x, p + seq![b] + y);
        assert((p + x).drop_first() =~= p.drop_first() + x);
        assert((p + seq![a] + x).drop_first() =~= p.drop_first() + seq![a] + x);
        assert((p + seq![b] + y).drop_first() =~= p.drop_first() + seq![b] + y);
    } else {
        assert(p + x =~= x);
        assert((p + seq![a] + x)[0] == a);
        assert((p + seq![b] + y)[0] == b);
    }
}

/// Names with the same first character compare as the rest of them do.
proof fn lemma_key_lt_shift(u: Seq<char>, v: Seq<char>)
    requires
        u.len() > 0,
        v.len() > 0,
        u[0] == v[0],
    ensures
        key_lt(u, v) == key_lt(u.drop_first(), v.drop_first()),
{
    lemma_key_lt_from_shift(u, v, 1);
}

proof fn lemma_key_lt_from_shift(u: Seq<char>, v: Seq<char>, i: nat)
    requires
        1 <= i,
        u.len() > 0,
        v.len() > 0,
        forall|k: int| 0 <= k < i && k < u.len() && k < v.len() ==> u[k] == v[k],
        i <= u.len() + 1,
    ensures
        key_lt_from(u, v, i) == key_lt_from(u.drop_first(), v.drop_first(), (i - 1) as nat),
        u[0] == v[0] ==> key_lt_from(u, v, 0) == key_lt_from(u, v, 1),
    decreases u.len() + 1 - i,
{
    if i < u.len() && i < v.len() && u[i as int] == v[i as int] {
        lemma_key_lt_from_shift(u, v, i + 1);
    }
}

/// Whether `a` comes before `b` in the order of `String`.
fn key_less(a: &String, b: &String) -> (r: bool)
    ensures
        r == key_lt(a@, b@),
{
    let x = chars_of(a.as_str());
    let y = chars_of(b.as_str());
    let mut i: usize = 0;
    while i < x.len() && i < y.len()
        invariant
            x@ == a@,
            y@ == b@,
            i <= x@.len(),
            i <= y@.len(),
            key_lt(a@, b@) == key_lt_from(a@, b@, i as nat),
        decreases x@.len() - i,
    {
        if x[i] != y[i] {
            return (x[i] as u32) < (y[i] as u32);
        }
        i = i + 1;
    }
    i < y.len()
}

// ---------------------------------------------------------------- plain values

/// A summary value as plain values.
pub enum DataView {
    Number(usize),
    Text(Seq<char>),
    Object(Map<Seq<char>, DataView>),
}

/// The plain value of `v`.
pub open spec fn value_view(v: DataValue) -> DataView
    decreases v, 0int,
{
    match v {
        DataValue::Number(n) => DataView::Number(n),
        DataValue::Text(s) => DataView::Text(s@),
        DataValue::Object(m) => DataView::Object(entries_map(m.entries@, m.entries@.len() as int)),
    }
}

/// The first `n` entries of `es` as a map (a later entry taking the place of
/// an earlier one of the same name).
pub open spec fn entries_map(es: Seq<(String, DataValue)>, n: int) -> Map<Seq<char>, DataView>
    decreases es, n,
{
    if n <= 0 || n > es.len() {
        Map::empty()
    } else {
        entries_map(es, n - 1).insert(es[n - 1].0@, value_view(es[n - 1].1))
    }
}

impl View for DataMap {
    type V = Map<Seq<char>, DataView>;

    open spec fn view(&self) -> Map<Seq<char>, DataView> {
        entries_map(self.entries@, self.entries@.len() as int)
    }
}

// ---------------------------------------------------------------- well-formed summaries

/// The names of `es` increase strictly.
pub open spec fn sorted_keys(es: Seq<(String, DataValue)>) -> bool {
    forall|i: int, j: int| 0 <= i < j < es.len() ==> key_lt(#[trigger] es[i].0@, #[trigger] es[j].0@)
}

/// Every nested summary in `v` has its names in increasing order.
pub open spec fn value_wf(v: DataValue) -> bool
    decreases v, 0int,
{
    match v {
        DataValue::Object(m) => sorted_keys(m.entries@) && entries_wf(
            m.entries@,
            m.entries@.len() as int,
        ),
        _ => true,
    }
}

/// The values of the first `n` entries of `es` are well formed.
pub open spec fn entries_wf(es: Seq<(String, DataValue)>, n: int) -> bool
    decreases es, n,
{
    if n <= 0 || n > es.len() {
        true
    } else {
        entries_wf(es, n - 1) && value_wf(es[n - 1].1)
    }
}

impl DataMap {
    /// The names increase strictly, in this map and in every nested one.
    pub open spec fn wf(&self) -> bool {
        sorted_keys(self.entries@) && entries_wf(self.entries@, self.entries@.len() as int)
    }
}

proof fn lemma_entries_wf(es: Seq<(String, DataValue)>, n: int)
    requires
        0 <= n <= es.len(),
    ensures
        entries_wf(es, n) <==> forall|i: int| 0 <= i < n ==> value_wf(#[trigger] es[i].1),
    decreases n,
{
    if n > 0 {
        lemma_entries_wf(es, n - 1);
    }
}

/// With distinct names, the map holds each entry's name with its value, and
/// no other name.
proof fn lemma_entries_map(es: Seq<(String, DataValue)>, n: int)
    requires
        0 <= n <= es.len(),
        forall|i: int, j: int| 0 <= i < j < n ==> es[i].0@ != es[j].0@,
    ensures
        forall|k: Seq<char>|
            #[trigger] entries_map(es, n).dom().contains(k) <==> exists|i: int|
                0 <= i < n && es[i].0@ == k,
        forall|i: int| 0 <= i < n ==> entries_map(es, n)[#[trigger] es[i].0@] == value_view(es[i].1),
    decreases n,
{
    if n > 0 {
        lemma_entries_map(es, n - 1);
        let m = entries_map(es, n - 1);
        assert forall|k: Seq<char>|
            #[trigger] entries_map(es, n).dom().contains(k) <==> exists|i: int|
                0 <= i < n && es[i].0@ == k by {
            if k == es[n - 1].0@ {
                assert(0 <= n - 1 < n && es[n - 1].0@ == k);
            } else if m.dom().contains(k) {
                let i = choose|i: int| 0 <= i < n - 1 && es[i].0@ == k;
                assert(0 <= i < n && es[i].0@ == k);
            } else {
                if exists|i: int| 0 <= i < n && es[i].0@ == k {
                    let i = choose|i: int| 0 <= i < n && es[i].0@ == k;
                    assert(i < n - 1);
                }
            }
        }
    }
}

proof fn lemma_sorted_distinct(es: Seq<(String, DataValue)>)
    requires
        sorted_keys(es),
    ensures
        forall|i: int, j: int| 0 <= i < j < es.len() ==> es[i].0@ != es[j].0@,
{
    assert forall|i: int, j: int| 0 <= i < j < es.len() implies es[i].0@ != es[j].0@ by {
        assert(key_lt(es[i].0@, es[j].0@));
        lemma_key_lt(es[i].0@, es[j].0@, es[j].0@);
    }
}

impl DataMap {
    pub fn new() -> (r: DataMap)
        ensures
            r.wf(),
            r@ == Map::<Seq<char>, DataView>::empty(),
    {
        DataMap { entries: Vec::new() }
    }

    /// Where an entry named `key` is, or would go: the first index whose
    /// name does not come before `key`.
    fn position(&self, key: &String) -> (r: usize)
        requires
            self.wf(),
        ensures
            r <= self.entries@.len(),
            forall|i: int| 0 <= i < r ==> key_lt(#[trigger] self.entries@[i].0@, key@),
            r < self.entries@.len() ==> !key_lt(self.entries@[r as int].0@, key@),
    {
        let n = self.entries.len();
        let mut i: usize = 0;
        while i < n
            invariant
                n == self.entries@.len(),
                i <= n,
                forall|j: int| 0 <= j < i ==> key_lt(#[trigger] self.entries@[j].0@, key@),
            decreases n - i,
        {
            if !key_less(&self.entries[i].0, key) {
                return i;
            }
            i = i + 1;
        }
        n
    }

    /// Inserts `value` under `key`, in place of the value of an entry of that
    /// name, else as a new entry where its name falls in the order.
    pub fn insert(&mut self, key: String, value: DataValue)
        requires
            old(self).wf(),
            value_wf(value),
        ensures
            final(self).wf(),
            final(self)@ == old(self)@.insert(key@, value_view(value)),
    {
        let ghost es = self.entries@;
        let ghost vv = value_view(value);
        proof {
            lemma_sorted_distinct(es);
            lemma_entries_map(es, es.len() as int);
            lemma_entries_wf(es, es.len() as int);
        }
        let p = self.position(&key);
        let same = p < self.entries.len() && self.entries[p].0 == key;
        if same {
            self.entries.set(p, (key, value));
        } else {
            self.entries.insert(p, (key, value));
        }
        proof {
            let es2 = self.entries@;
            let k = key@;
            if same {
                assert(es2 == es.update(p as int, (key, value)));
                assert forall|i: int, j: int| 0 <= i < j < es2.len() implies key_lt(
                    #[trigger] es2[i].0@,
                    #[trigger] es2[j].0@,
                ) by {
                    assert(key_lt(es[i].0@, es[j].0@));
                }
            } else {
                assert(es2 == es.insert(p as int, (key, value)));
                if (p as int) < es.len() {
                    lemma_key_lt(es[p as int].0@, k, k);
                    assert(key_lt(k, es[p as int].0@));
                }
                assert forall|i: int, j: int| 0 <= i < j < es2.len() implies key_lt(
                    #[trigger] es2[i].0@,
                    #[trigger] es2[j].0@,
                ) by {
                    if j < p {
                        assert(key_lt(es[i].0@, es[j].0@));
                    } else if j == p {
                        assert(key_lt(es[i].0@, k));
                    } else if i < p {
                        assert(key_lt(es[i].0@, es[j - 1].0@));
                    } else if i == p {
                        if j - 1 > p {
                            assert(key_lt(es[p as int].0@, es[j - 1].0@));
                            lemma_key_lt(k, es[p as int].0@, es[j - 1].0@);
                        }
                    } else {
                        assert(key_lt(es[i - 1].0@, es[j - 1].0@));
                    }
                }
                assert forall|i: int| 0 <= i < es.len() implies es[i].0@ != k by {
                    if i < p {
                        assert(key_lt(es[i].0@, k));
                        lemma_key_lt(es[i].0@, k, k);
                    } else {
                        assert(es2[p as int].0@ == k);
                        assert(key_lt(es2[p as int].0@, es2[i + 1].0@));
                        assert(es2[i + 1] == es[i]);
                        lemma_key_lt(k, es[i].0@, k);
                    }
                }
            }
            lemma_sorted_distinct(es2);
            lemma_entries_map(es2, es2.len() as int);
            assert forall|i: int| 0 <= i < es2.len() implies value_wf(#[trigger] es2[i].1) by {
                if same {
                    if i != p {
                        assert(es2[i] == es[i]);
                    }
                } else if i < p {
                    assert(es2[i] == es[i]);
                } else if i > p {
                    assert(es2[i] == es[i - 1]);
                }
            }
            lemma_entries_wf(es2, es2.len() as int);
            let m = entries_map(es, es.len() as int).insert(k, vv);
            let base = entries_map(es, es.len() as int);
            assert forall|x: Seq<char>| #[trigger] self@.dom().contains(x) <==> m.dom().contains(x) by {
                if self@.dom().contains(x) && x != k {
                    let i = choose|i: int| 0 <= i < es2.len() && es2[i].0@ == x;
                    let j = if same || i < p {
                        i
                    } else {
                        i - 1
                    };
                    assert(es2[i] == es[j]);
                    assert(0 <= j < es.len() && es[j].0@ == x);
                    assert(base.dom().contains(x));
                }
                if m.dom().contains(x) {
                    if x == k {
                        assert(0 <= p < es2.len() && es2[p as int].0@ == x);
                    } else {
                        let i = choose|i: int| 0 <= i < es.len() && es[i].0@ == x;
                        let j = if same || i < p {
                            i
                        } else {
                            i + 1
                        };
                        assert(es2[j] == es[i]);
                        assert(0 <= j < es2.len() && es2[j].0@ == x);
                    }
                }
            }
            assert forall|x: Seq<char>| #[trigger] self@.dom().contains(x) implies self@[x] == m[x] by {
                let i = choose|i: int| 0 <= i < es2.len() && es2[i].0@ == x;
                if x != k {
                    if same {
                        assert(es2[i] == es[i]);
                    } else if i < p {
                        assert(es2[i] == es[i]);
                    } else {
                        assert(es2[i] == es[i - 1]);
                    }
                } else {
                    assert(es2[p as int].0@ == k);
                }
            }
            assert(self@ =~= m);
        }
    }

    /// Inserts each entry of `other` in turn.
    pub fn extend(&mut self, other: DataMap)
        requires
            old(self).wf(),
            other.wf(),
        ensures
            final(self).wf(),
            final(self)@ == old(self)@.union_prefer_right(other@),
    {
        let mut rest = other.entries;
        let ghost all = rest@;
        let ghost start = self@;
        proof {
            lemma_entries_wf(all, all.len() as int);
        }
        let mut k: usize = 0;
        let n = rest.len();
        assert(start.union_prefer_right(entries_map(all, 0)) =~= start);
        while k < n
            invariant
                n == all.len(),
                k <= n,
                rest@ == all.skip(k as int),
                self.wf(),
                forall|i: int| 0 <= i < all.len() ==> value_wf(#[trigger] all[i].1),
                self@ == start.union_prefer_right(entries_map(all, k as int)),
            decreases n - k,
        {
            let (key, value) = rest.remove(0);
            proof {
                assert(all.skip(k as int).remove(0) =~= all.skip(k + 1));
                assert(all.skip(k as int)[0] == all[k as int]);
                assert(start.union_prefer_right(entries_map(all, k as int)).insert(key@, value_view(value))
                    =~= start.union_prefer_right(entries_map(all, k + 1)));
            }
            self.insert(key, value);
            k = k + 1;
        }
    }
}

/// A summary of what was read, in the shape of a JSON object.
pub trait FormatVisitor {
    fn to_json(&self) -> DataMap;
}

} // verus!
