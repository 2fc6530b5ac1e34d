//! The final report: one entry per key, in byte-lexicographic order of keys,
//! with minimum, rounded mean and maximum in tenths.
use vstd::prelude::*;

use crate::station::{lemma_rounded_mean_bounds, rounded_mean, stats_wf};
use crate::station::Station;
use crate::table::{map_entries, StatsTable, Stations};

verus! {

/// `a` sorts strictly before `b`, byte by byte, a proper prefix first.
pub open spec fn lex_lt(a: Seq<u8>, b: Seq<u8>) -> bool
    decreases a.len(),
{
    if a.len() == 0 {
        b.len() > 0
    } else if b.len() == 0 {
        false
    } else if a[0] != b[0] {
        a[0] < b[0]
    } else {
        lex_lt(a.drop_first(), b.drop_first())
    }
}

pub proof fn lemma_lex_irreflexive(a: Seq<u8>)
    ensures
        !lex_lt(a, a),
    decreases a.len(),
{
    if a.len() > 0 {
        lemma_lex_irreflexive(a.drop_first());
    }
}

pub proof fn lemma_lex_transitive(a: Seq<u8>, b: Seq<u8>, c: Seq<u8>)
    requires
        lex_lt(a, b),
        lex_lt(b, c),
    ensures
        lex_lt(a, c),
    decreases a.len(),
{
    if a.len() > 0 && b.len() > 0 && c.len() > 0 && a[0] == b[0] && b[0] == c[0] {
        lemma_lex_transitive(a.drop_first(), b.drop_first(), c.drop_first());
    }
}

pub proof fn lemma_lex_total(a: Seq<u8>, b: Seq<u8>)
    requires
        a != b,
    ensures
        lex_lt(a, b) || lex_lt(b, a),
    decreases a.len(),
{
    if a.len() == 0 {
        if b.len() == 0 {
            assert(a =~= b);
        }
    } else if b.len() > 0 && a[0] == b[0] {
        if a.drop_first() == b.drop_first() {
            assert(a =~= seq![a[0]] + a.drop_first());
            assert(b =~= seq![b[0]] + b.drop_first());
        }
        lemma_lex_total(a.drop_first(), b.drop_first());
    }
}

proof fn lemma_lex_skip(a: Seq<u8>, b: Seq<u8>, i: int)
    requires
        0 <= i <= a.len(),
        i <= b.len(),
        a.take(i) == b.take(i),
    ensures
        lex_lt(a, b) == lex_lt(a.skip(i), b.skip(i)),
    decreases i,
{
    if i == 0 {
        assert(a.skip(0) =~= a);
        assert(b.skip(0) =~= b);
    } else {
        assert(a[0] == a.take(i)[0] && b[0] == b.take(i)[0]);
        assert(a.drop_first().take(i - 1) =~= a.take(i).drop_first());
        assert(b.drop_first().take(i - 1) =~= b.take(i).drop_first());
        lemma_lex_skip(a.drop_first(), b.drop_first(), i - 1);
        assert(a.drop_first().skip(i - 1) =~= a.skip(i));
        assert(b.drop_first().skip(i - 1) =~= b.skip(i));
    }
}

/// Compares two keys byte by byte.
pub fn lex_less(a: &[u8], b: &[u8]) -> (r: bool)
    ensures
        r == lex_lt(a@, b@),
{
    let mut i: usize = 0;
    while i < a.len() && i < b.len() && a[i] == b[i]
        invariant
            i <= a@.len(),
            i <= b@.len(),
            a@.take(i as int) == b@.take(i as int),
        decreases a@.len() - i,
    {
        assert(a@.take(i + 1) =~= a@.take(i as int).push(a@[i as int]));
        assert(b@.take(i + 1) =~= b@.take(i as int).push(b@[i as int]));
        i = i + 1;
    }
    proof {
        lemma_lex_skip(a@, b@, i as int);
        if i < a@.len() {
            assert(a@.skip(i as int)[0] == a@[i as int]);
        }
        if i < b@.len() {
            assert(b@.skip(i as int)[0] == b@[i as int]);
        }
    }
    if i < a.len() && i < b.len() {
        a[i] < b[i]
    } else {
        i == a.len() && i < b.len()
    }
}

/// One line of the report: a key with its minimum, rounded mean and
/// maximum, in tenths.
#[derive(Debug, PartialEq, Eq)]
pub struct ReportEntry {
    pub name: Vec<u8>,
    pub min: i32,
    pub mean: i32,
    pub max: i32,
}

impl View for ReportEntry {
    type V = (Seq<u8>, int, int, int);

    open spec fn view(&self) -> (Seq<u8>, int, int, int) {
        (self.name@, self.min as int, self.mean as int, self.max as int)
    }
}

/// The report of a table, as a sequence of `(key, min, mean, max)`.
pub open spec fn report_view(r: Seq<ReportEntry>) -> Seq<(Seq<u8>, int, int, int)> {
    r.map_values(|e: ReportEntry| e@)
}

/// Keys strictly increasing.
pub open spec fn sorted_keys(r: Seq<(Seq<u8>, int, int, int)>) -> bool {
    forall|i: int, j: int| 0 <= i < j < r.len() ==> lex_lt((#[trigger] r[i]).0, (#[trigger] r[j]).0)
}

/// `r` is the report of `m`: one entry per key of `m` and no other, keys in
/// strictly increasing order, each with the key's minimum, mean rounded
/// half away from zero, and maximum.
pub open spec fn is_report(m: StatsTable, r: Seq<(Seq<u8>, int, int, int)>) -> bool {
    &&& sorted_keys(r)
    &&& forall|i: int|
        0 <= i < r.len() ==> m.contains_key((#[trigger] r[i]).0) && r[i].1 == m[r[i].0].min
            && r[i].2 == rounded_mean(m[r[i].0].total, m[r[i].0].count) && r[i].3 == m[r[i].0].max
    &&& forall|k: Seq<u8>| #[trigger]
        m.contains_key(k) ==> exists|i: int| 0 <= i < r.len() && (#[trigger] r[i]).0 == k
}

/// A table has exactly one report: reporting twice on an unchanged table
/// gives identical output.
pub proof fn lemma_report_unique(
    m: StatsTable,
    r1: Seq<(Seq<u8>, int, int, int)>,
    r2: Seq<(Seq<u8>, int, int, int)>,
)
    requires
        is_report(m, r1),
        is_report(m, r2),
    ensures
        r1 == r2,
    decreases r1.len(),
{
    if r1.len() == 0 {
        if r2.len() > 0 {
            assert(m.contains_key(r2[0].0));
        }
        assert(r1 =~= r2);
    } else {
        assert(m.contains_key(r1[0].0));
        let j = choose|j: int| 0 <= j < r2.len() && (#[trigger] r2[j]).0 == r1[0].0;
        assert(m.contains_key(r2[0].0));
        let i = choose|i: int| 0 <= i < r1.len() && (#[trigger] r1[i]).0 == r2[0].0;
        if j > 0 {
            if i == 0 {
                lemma_lex_irreflexive(r2[0].0);
            } else {
                lemma_lex_transitive(r1[0].0, r1[i].0, r1[0].0);
                lemma_lex_irreflexive(r1[0].0);
            }
        }
        assert(j == 0);
        let k = r1[0].0;
        let m2 = m.remove(k);
        let s1 = r1.drop_first();
        let s2 = r2.drop_first();
        assert forall|i: int| 0 <= i < s1.len() implies (#[trigger] s1[i]).0 != k by {
            assert(lex_lt(r1[0].0, r1[i + 1].0));
            lemma_lex_irreflexive(k);
        }
        assert forall|i: int| 0 <= i < s2.len() implies (#[trigger] s2[i]).0 != k by {
            assert(lex_lt(r2[0].0, r2[i + 1].0));
            lemma_lex_irreflexive(k);
        }
        assert(is_report(m2, s1)) by {
            assert forall|i: int, j: int| 0 <= i < j < s1.len() implies lex_lt(
                (#[trigger] s1[i]).0,
                (#[trigger] s1[j]).0,
            ) by {
                assert(s1[i] == r1[i + 1] && s1[j] == r1[j + 1]);
            }
            assert forall|i: int| 0 <= i < s1.len() implies m2.contains_key(
                (#[trigger] s1[i]).0,
            ) by {
                assert(s1[i] == r1[i + 1]);
            }
            assert forall|kk: Seq<u8>| #[trigger] m2.contains_key(kk) implies exists|i: int|
                0 <= i < s1.len() && (#[trigger] s1[i]).0 == kk by {
                assert(m.contains_key(kk));
                let i = choose|i: int| 0 <= i < r1.len() && (#[trigger] r1[i]).0 == kk;
                assert(s1[i - 1] == r1[i]);
            }
        }
        assert(is_report(m2, s2)) by {
            assert forall|i: int, j: int| 0 <= i < j < s2.len() implies lex_lt(
                (#[trigger] s2[i]).0,
                (#[trigger] s2[j]).0,
            ) by {
                assert(s2[i] == r2[i + 1] && s2[j] == r2[j + 1]);
            }
            assert forall|i: int| 0 <= i < s2.len() implies m2.contains_key(
                (#[trigger] s2[i]).0,
            ) by {
                assert(s2[i] == r2[i + 1]);
            }
            assert forall|kk: Seq<u8>| #[trigger] m2.contains_key(kk) implies exists|i: int|
                0 <= i < s2.len() && (#[trigger] s2[i]).0 == kk by {
                assert(m.contains_key(kk));
                let i = choose|i: int| 0 <= i < r2.len() && (#[trigger] r2[i]).0 == kk;
                assert(s2[i - 1] == r2[i]);
            }
        }
        lemma_report_unique(m2, s1, s2);
        assert(r1 =~= seq![r1[0]] + s1);
        assert(r2 =~= seq![r2[0]] + s2);
    }
}

proof fn lemma_sorted_insert(r: Seq<(Seq<u8>, int, int, int)>, p: int, x: (Seq<u8>, int, int, int))
    requires
        sorted_keys(r),
        0 <= p <= r.len(),
        forall|q: int| 0 <= q < p ==> lex_lt((#[trigger] r[q]).0, x.0),
        forall|q: int| p <= q < r.len() ==> lex_lt(x.0, (#[trigger] r[q]).0),
    ensures
        sorted_keys(r.insert(p, x)),
{
    let n = r.insert(p, x);
    assert forall|i: int, j: int| 0 <= i < j < n.len() implies lex_lt(
        (#[trigger] n[i]).0,
        (#[trigger] n[j]).0,
    ) by {
        if i < p {
            assert(n[i] == r[i]);
        } else if i > p {
            assert(n[i] == r[i - 1]);
        }
        if j < p {
            assert(n[j] == r[j]);
        } else if j > p {
            assert(n[j] == r[j - 1]);
        }
    }
}

/// `x` is the report entry of its key in `m`.
pub open spec fn entry_of(m: StatsTable, x: (Seq<u8>, int, int, int)) -> bool {
    &&& m.contains_key(x.0)
    &&& x.1 == m[x.0].min
    &&& x.2 == rounded_mean(m[x.0].total, m[x.0].count)
    &&& x.3 == m[x.0].max
}

spec fn has_key(r: Seq<(Seq<u8>, int, int, int)>, k: Seq<u8>) -> bool {
    exists|q: int| 0 <= q < r.len() && (#[trigger] r[q]).0 == k
}

spec fn among_first(e: Seq<(Vec<u8>, Station)>, n: int, k: Seq<u8>) -> bool {
    exists|j: int| 0 <= j < n && (#[trigger] e[j]).0@ == k
}

/// Inserts `e` into a list sorted by key, before the first larger key.
fn insert_sorted(out: &mut Vec<ReportEntry>, e: ReportEntry)
    requires
        sorted_keys(report_view(old(out)@)),
        !has_key(report_view(old(out)@), e.name@),
    ensures
        exists|p: int|
            0 <= p <= old(out)@.len() && report_view(final(out)@) == report_view(old(out)@).insert(
                p,
                e@,
            ),
        sorted_keys(report_view(final(out)@)),
{
    let mut p: usize = 0;
    while p < out.len() && lex_less(out[p].name.as_slice(), e.name.as_slice())
        invariant
            p <= out@.len(),
            forall|q: int| 0 <= q < p ==> lex_lt((#[trigger] out@[q]).name@, e.name@),
        decreases out@.len() - p,
    {
        p = p + 1;
    }
    let ghost old_out = out@;
    proof {
        let rv = report_view(old_out);
        assert forall|q: int| 0 <= q < p implies lex_lt((#[trigger] rv[q]).0, e@.0) by {
            assert(rv[q] == old_out[q]@);
        }
        assert forall|q: int| p <= q < rv.len() implies lex_lt(e@.0, (#[trigger] rv[q]).0) by {
            assert(rv[p as int] == old_out[p as int]@);
            assert(rv[p as int].0 != e.name@);
            lemma_lex_total(old_out[p as int].name@, e.name@);
            if q > p {
                lemma_lex_transitive(e@.0, rv[p as int].0, rv[q].0);
            }
        }
        lemma_sorted_insert(rv, p as int, e@);
    }
    out.insert(p, e);
    assert(report_view(out@) =~= report_view(old_out).insert(p as int, e@));
}

impl Stations {
    /// The report of this table: one entry per key, keys in byte-lexicographic
    /// order, with minimum, mean rounded to the nearest tenth (halves away
    /// from zero) and maximum.
    pub fn report(&self) -> (r: Vec<ReportEntry>)
        requires
            self.wf(),
        ensures
            is_report(self@, report_view(r@)),
    {
        let entries = map_entries(&self.map);
        let ghost m = self@;
        let ghost contents = crate::table::station_map_contents(self.map);
        let mut out: Vec<ReportEntry> = Vec::new();
        let mut i: usize = 0;
        while i < entries.len()
            invariant
                i <= entries@.len(),
                m == self@,
                self.wf(),
                contents == crate::table::station_map_contents(self.map),
                crate::table::lists_entries(entries@, contents),
                sorted_keys(report_view(out@)),
                forall|q: int|
                    0 <= q < report_view(out@).len() ==> entry_of(m, #[trigger] report_view(out@)[q]),
                forall|j: int| 0 <= j < i ==> has_key(report_view(out@), (#[trigger] entries@[j]).0@),
                forall|q: int|
                    0 <= q < report_view(out@).len() ==> among_first(
                        entries@,
                        i as int,
                        (#[trigger] report_view(out@)[q]).0,
                    ),
            decreases entries@.len() - i,
        {
            let name = vstd::slice::slice_to_vec(entries[i].0.as_slice());
            let st = entries[i].1;
            let ghost k = entries@[i as int].0@;
            let ghost rv = report_view(out@);
            proof {
                assert(m.contains_key(k));
                assert(m[k] == st@);
                assert(stats_wf(st@));
                lemma_rounded_mean_bounds(st@);
                if has_key(rv, k) {
                    let q = choose|q: int| 0 <= q < rv.len() && (#[trigger] rv[q]).0 == k;
                    assert(among_first(entries@, i as int, rv[q].0));
                    let j = choose|j: int| 0 <= j < i && (#[trigger] entries@[j]).0@ == k;
                    assert(false);
                }
            }
            let e = ReportEntry { name, min: st.min, mean: st.mean(), max: st.max };
            insert_sorted(&mut out, e);
            proof {
                let p = choose|p: int|
                    0 <= p <= rv.len() && report_view(out@) == rv.insert(p, e@);
                let nv = report_view(out@);
                assert forall|q: int| 0 <= q < nv.len() implies entry_of(m, #[trigger] nv[q]) by {
                    if q < p {
                        assert(nv[q] == rv[q]);
                    } else if q > p {
                        assert(nv[q] == rv[q - 1]);
                    }
                }
                assert forall|j: int| 0 <= j < i + 1 implies has_key(nv, (#[trigger] entries@[j]).0@) by {
                    if j < i {
                        assert(has_key(rv, entries@[j].0@));
                        let q = choose|q: int| 0 <= q < rv.len() && (#[trigger] rv[q]).0 == entries@[j].0@;
                        if q < p {
                            assert(nv[q] == rv[q]);
                        } else {
                            assert(nv[q + 1] == rv[q]);
                        }
                    } else {
                        assert(nv[p] == e@);
                    }
                }
                assert forall|q: int| 0 <= q < nv.len() implies among_first(entries@, i + 1, (#[trigger] nv[q]).0) by {
                    if q < p {
                        assert(nv[q] == rv[q]);
                        assert(among_first(entries@, i as int, rv[q].0));
                    } else if q > p {
                        assert(nv[q] == rv[q - 1]);
                        assert(among_first(entries@, i as int, rv[q - 1].0));
                    } else {
                        assert(nv[q].0 == entries@[i as int].0@);
                    }
                }
            }
            i = i + 1;
        }
        proof {
            let rv = report_view(out@);
            assert forall|kk: Seq<u8>| #[trigger] m.contains_key(kk) implies exists|q: int|
                0 <= q < rv.len() && (#[trigger] rv[q]).0 == kk by {
                assert(contents.contains_key(kk));
                let j = choose|j: int| 0 <= j < entries@.len() && (#[trigger] entries@[j]).0@ == kk;
                assert(has_key(rv, entries@[j].0@));
            }
        }
        out
    }
}

} // verus!
