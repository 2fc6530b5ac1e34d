//! The aggregation table: a map from key bytes to the statistics of that key,
//! kept in a `hashbrown` map, with observation and merge.
use vstd::prelude::*;
use vstd::slice::slice_to_vec;

use crate::station::{add_obs, combine, rounded_mean, single, stats_wf, Station, StatsModel};

verus! {

/// The contents of an aggregation table: key bytes to statistics.
pub type StatsTable = Map<Seq<u8>, StatsModel>;

/// The table after observing value `v` for key `k`.
pub open spec fn observe(m: StatsTable, k: Seq<u8>, v: int) -> StatsTable {
    if m.contains_key(k) {
        m.insert(k, add_obs(m[k], v))
    } else {
        m.insert(k, single(v))
    }
}

/// The table built from an empty one by observing `obs` in order.
pub open spec fn observe_all(obs: Seq<(Seq<u8>, int)>) -> StatsTable
    decreases obs.len(),
{
    if obs.len() == 0 {
        Map::empty()
    } else {
        observe(observe_all(obs.drop_last()), obs.last().0, obs.last().1)
    }
}

/// Two tables taken together: shared keys combine their statistics, other
/// keys keep theirs.
pub open spec fn merge_tables(a: StatsTable, b: StatsTable) -> StatsTable {
    Map::new(
        |k: Seq<u8>| a.contains_key(k) || b.contains_key(k),
        |k: Seq<u8>|
            if a.contains_key(k) && b.contains_key(k) {
                combine(a[k], b[k])
            } else if a.contains_key(k) {
                a[k]
            } else {
                b[k]
            },
    )
}

/// Every entry holds well-formed statistics of at most `bound` observations.
pub open spec fn table_wf(m: StatsTable, bound: int) -> bool {
    forall|k: Seq<u8>| #[trigger]
        m.contains_key(k) ==> stats_wf(m[k]) && m[k].count <= bound
}

/// The `hashbrown` map that holds a table's entries.
#[verifier::external_body]
pub struct StationMap {
    map: hashbrown::HashMap<Vec<u8>, Station>,
}

/// What a [`StationMap`] holds.
pub uninterp spec fn station_map_contents(m: StationMap) -> Map<Seq<u8>, Station>;

/// Keys pairwise distinct.
pub open spec fn distinct_keys(e: Seq<(Vec<u8>, Station)>) -> bool {
    forall|i: int, j: int|
        0 <= i < j < e.len() ==> (#[trigger] e[i]).0@ != (#[trigger] e[j]).0@
}

/// `e` lists exactly the entries of `m`, each once, in some order.
pub open spec fn lists_entries(e: Seq<(Vec<u8>, Station)>, m: Map<Seq<u8>, Station>) -> bool {
    &&& distinct_keys(e)
    &&& forall|i: int|
        0 <= i < e.len() ==> m.contains_key((#[trigger] e[i]).0@) && m[e[i].0@] == e[i].1
    &&& forall|k: Seq<u8>| #[trigger]
        m.contains_key(k) ==> exists|i: int| 0 <= i < e.len() && (#[trigger] e[i]).0@ == k
}

/// Relies on `hashbrown::HashMap::new`: the map starts empty.
#[verifier::external_body]
fn map_new() -> (r: StationMap)
    ensures
        station_map_contents(r).dom().is_empty(),
{
    StationMap { map: hashbrown::HashMap::new() }
}

/// Relies on `hashbrown::HashMap::get`: the value stored under the key, if
/// any (`Vec<u8>` hashes and compares as its `[u8]` borrow).
#[verifier::external_body]
fn map_get(m: &StationMap, k: &[u8]) -> (r: Option<Station>)
    ensures
        match r {
            Some(s) => station_map_contents(*m).contains_key(k@) && station_map_contents(*m)[k@]
                == s,
            None => !station_map_contents(*m).contains_key(k@),
        },
{
    m.map.get(k).copied()
}

/// Relies on `hashbrown::HashMap::insert`: afterwards the key maps to the
/// given value and every other entry is unchanged.
#[verifier::external_body]
fn map_insert(m: &mut StationMap, k: Vec<u8>, s: Station)
    ensures
        station_map_contents(*final(m)) == station_map_contents(*old(m)).insert(k@, s),
{
    m.map.insert(k, s);
}

/// Relies on `hashbrown::HashMap`'s `IntoIterator`: every entry, moved out
/// once, in an unspecified order.
#[verifier::external_body]
fn map_into_entries(m: StationMap) -> (r: Vec<(Vec<u8>, Station)>)
    ensures
        lists_entries(r@, station_map_contents(m)),
{
    m.map.into_iter().collect()
}

/// Relies on `hashbrown::HashMap::iter`: every entry, visited once, in an
/// unspecified order, each copied out.
#[verifier::external_body]
pub(crate) fn map_entries(m: &StationMap) -> (r: Vec<(Vec<u8>, Station)>)
    ensures
        lists_entries(r@, station_map_contents(*m)),
{
    m.map.iter().map(|(k, s)| (k.clone(), *s)).collect()
}

/// The table that a list of entries with distinct keys stands for.
pub open spec fn entries_table(e: Seq<(Vec<u8>, Station)>) -> StatsTable
    decreases e.len(),
{
    if e.len() == 0 {
        Map::empty()
    } else {
        entries_table(e.drop_last()).insert(e.last().0@, e.last().1@)
    }
}

proof fn lemma_entries_table(e: Seq<(Vec<u8>, Station)>)
    requires
        distinct_keys(e),
    ensures
        forall|k: Seq<u8>|
            #[trigger] entries_table(e).contains_key(k) <==> exists|i: int|
                0 <= i < e.len() && (#[trigger] e[i]).0@ == k,
        forall|i: int|
            0 <= i < e.len() ==> #[trigger] entries_table(e)[e[i].0@] == e[i].1@,
    decreases e.len(),
{
    if e.len() > 0 {
        let p = e.drop_last();
        assert(distinct_keys(p)) by {
            assert forall|i: int, j: int| 0 <= i < j < p.len() implies (#[trigger] p[i]).0@
                != (#[trigger] p[j]).0@ by {
                assert(p[i] == e[i] && p[j] == e[j]);
            }
        }
        lemma_entries_table(p);
        assert forall|k: Seq<u8>| #[trigger] entries_table(e).contains_key(k) implies exists|
            i: int,
        | 0 <= i < e.len() && (#[trigger] e[i]).0@ == k by {
            if k != e.last().0@ {
                assert(entries_table(p).contains_key(k));
                let i = choose|i: int| 0 <= i < p.len() && (#[trigger] p[i]).0@ == k;
                assert(e[i] == p[i]);
            }
        }
        assert forall|k: Seq<u8>|
            (exists|i: int| 0 <= i < e.len() && (#[trigger] e[i]).0@ == k) implies #[trigger] entries_table(e).contains_key(k) by {
            let i = choose|i: int| 0 <= i < e.len() && (#[trigger] e[i]).0@ == k;
            if i < e.len() - 1 {
                assert(p[i] == e[i]);
                assert(p[i].0@ == k);
                assert(entries_table(p).contains_key(k));
            }
        }
        assert forall|i: int| 0 <= i < e.len() implies #[trigger] entries_table(e)[e[i].0@]
            == e[i].1@ by {
            if i < e.len() - 1 {
                assert(p[i] == e[i]);
                assert(e[i].0@ != e[e.len() - 1].0@);
                assert(entries_table(p)[p[i].0@] == p[i].1@);
            }
        }
    }
}

/// What an entry list that lists a map's entries stands for is that map's
/// table.
proof fn lemma_entries_table_of(e: Seq<(Vec<u8>, Station)>, m: Map<Seq<u8>, Station>)
    requires
        lists_entries(e, m),
    ensures
        entries_table(e) == m.map_values(|s: Station| s@),
{
    lemma_entries_table(e);
    let t = m.map_values(|s: Station| s@);
    assert forall|k: Seq<u8>| #[trigger] entries_table(e).contains_key(k) <==> t.contains_key(
        k,
    ) by {
        if entries_table(e).contains_key(k) {
            let i = choose|i: int| 0 <= i < e.len() && (#[trigger] e[i]).0@ == k;
        }
    }
    assert forall|k: Seq<u8>| #[trigger] t.contains_key(k) implies entries_table(e)[k] == t[k] by {
        let i = choose|i: int| 0 <= i < e.len() && (#[trigger] e[i]).0@ == k;
    }
    assert(entries_table(e) =~= t);
}

/// Merging in one more key that the second table lacks.
proof fn lemma_merge_insert(a: StatsTable, b: StatsTable, k: Seq<u8>, s: StatsModel)
    requires
        !b.contains_key(k),
    ensures
        merge_tables(a, b.insert(k, s)) == merge_tables(a, b).insert(
            k,
            if a.contains_key(k) {
                combine(a[k], s)
            } else {
                s
            },
        ),
{
    assert(merge_tables(a, b.insert(k, s)) =~= merge_tables(a, b).insert(
        k,
        if a.contains_key(k) {
            combine(a[k], s)
        } else {
            s
        },
    ));
}

/// Merging tables is commutative: `a` merged with `b` equals `b` merged
/// with `a`, key by key and field by field.
pub proof fn lemma_merge_commutative(a: StatsTable, b: StatsTable)
    ensures
        merge_tables(a, b) == merge_tables(b, a),
{
    assert(merge_tables(a, b) =~= merge_tables(b, a));
}

/// Merging tables is associative: any grouping of three tables gives the
/// same result.
pub proof fn lemma_merge_associative(a: StatsTable, b: StatsTable, c: StatsTable)
    ensures
        merge_tables(merge_tables(a, b), c) == merge_tables(a, merge_tables(b, c)),
{
    assert(merge_tables(merge_tables(a, b), c) =~= merge_tables(a, merge_tables(b, c)));
}

/// The empty table is neutral for merging.
pub proof fn lemma_merge_empty(a: StatsTable)
    ensures
        merge_tables(a, Map::empty()) == a,
{
    assert(merge_tables(a, Map::empty()) =~= a);
}

proof fn lemma_observe_merge(a: StatsTable, b: StatsTable, k: Seq<u8>, v: int)
    ensures
        observe(merge_tables(a, b), k, v) == merge_tables(a, observe(b, k, v)),
{
    assert(observe(merge_tables(a, b), k, v) =~= merge_tables(a, observe(b, k, v)));
}

/// Splitting a sequence of observations into two groups, aggregating each
/// group on its own and merging the two tables gives the table of the whole
/// sequence; with commutativity and associativity of merging, this holds of
/// any partition into groups, merged in any order and grouping.
pub proof fn lemma_observe_all_split(x: Seq<(Seq<u8>, int)>, y: Seq<(Seq<u8>, int)>)
    ensures
        observe_all(x + y) == merge_tables(observe_all(x), observe_all(y)),
    decreases y.len(),
{
    if y.len() == 0 {
        assert(x + y =~= x);
        lemma_merge_empty(observe_all(x));
    } else {
        let y1 = y.drop_last();
        assert((x + y).drop_last() =~= x + y1);
        assert((x + y).last() == y.last());
        lemma_observe_all_split(x, y1);
        lemma_observe_merge(observe_all(x), observe_all(y1), y.last().0, y.last().1);
    }
}

/// A single observation `v` of key `k` gives a table with that key alone,
/// whose minimum, maximum and rounded mean are all `v`.
pub proof fn lemma_single_record(k: Seq<u8>, v: int)
    ensures
        observe_all(seq![(k, v)]) == map![k => single(v)],
        observe_all(seq![(k, v)])[k].min == v,
        observe_all(seq![(k, v)])[k].max == v,
        rounded_mean(observe_all(seq![(k, v)])[k].total, observe_all(seq![(k, v)])[k].count) == v,
{
    let obs = seq![(k, v)];
    assert(obs.drop_last() =~= Seq::<(Seq<u8>, int)>::empty());
    assert(observe_all(obs.drop_last()) == Map::<Seq<u8>, StatsModel>::empty());
    assert(obs.last() == (k, v));
    assert(observe_all(obs) =~= map![k => single(v)]);
    if v >= 0 {
        assert((2 * v + 1) / 2 == v);
    } else {
        assert((-2 * v + 1) / 2 == -v);
    }
}

/// An aggregation table, with the number of observations it has taken in.
pub struct Stations {
    pub map: StationMap,
    pub records: u64,
}

impl View for Stations {
    type V = StatsTable;

    open spec fn view(&self) -> StatsTable {
        station_map_contents(self.map).map_values(|s: Station| s@)
    }
}

impl Stations {
    /// Every entry is well formed and counts at most `records` observations.
    pub open spec fn wf(&self) -> bool {
        table_wf(self@, self.records as int)
    }

    /// An empty table.
    pub fn new() -> (r: Stations)
        ensures
            r@ == Map::<Seq<u8>, StatsModel>::empty(),
            r.records == 0,
            r.wf(),
    {
        let r = Stations { map: map_new(), records: 0 };
        assert(r@ =~= Map::<Seq<u8>, StatsModel>::empty());
        r
    }

    /// The number of observations taken in, merged tables included.
    pub fn records(&self) -> (r: u64)
        ensures
            r == self.records,
    {
        self.records
    }

    /// The statistics of `name`, if it has been observed.
    pub fn get(&self, name: &[u8]) -> (r: Option<Station>)
        ensures
            match r {
                Some(s) => self@.contains_key(name@) && self@[name@] == s@,
                None => !self@.contains_key(name@),
            },
    {
        map_get(&self.map, name)
    }

    /// Observes `value` for `name`: a new key starts with that one value, a
    /// known key updates its running statistics.
    pub fn insert(&mut self, name: &[u8], value: i32)
        requires
            old(self).wf(),
            old(self).records < u64::MAX,
        ensures
            final(self)@ == observe(old(self)@, name@, value as int),
            final(self).records == old(self).records + 1,
            final(self).wf(),
    {
        let ghost before = self@;
        let s = match map_get(&self.map, name) {
            Some(mut st) => {
                assert(before.contains_key(name@));
                assert(before[name@] == st@);
                st.add_value(value);
                st
            },
            None => Station::new(value),
        };
        map_insert(&mut self.map, slice_to_vec(name), s);
        self.records = self.records + 1;
        assert(self@ =~= before.insert(name@, s@));
        assert(self@ =~= observe(before, name@, value as int));
    }

    /// Takes in every entry of `other`: afterwards the table holds what both
    /// held, with the statistics of shared keys combined.
    pub fn merge(&mut self, other: Stations)
        requires
            old(self).wf(),
            other.wf(),
            old(self).records + other.records <= u64::MAX,
        ensures
            final(self)@ == merge_tables(old(self)@, other@),
            final(self).records == old(self).records + other.records,
            final(self).wf(),
    {
        let ghost a = self@;
        let ghost b = other@;
        let ghost ra = self.records as int;
        let ghost rb = other.records as int;
        self.records = self.records + other.records;
        let entries = map_into_entries(other.map);
        proof {
            lemma_entries_table(entries@);
            lemma_entries_table_of(entries@, station_map_contents(other.map));
            assert(merge_tables(a, entries_table(entries@.take(0))) =~= a);
        }
        let mut i: usize = 0;
        while i < entries.len()
            invariant
                0 <= i <= entries@.len(),
                distinct_keys(entries@),
                entries_table(entries@) == b,
                table_wf(a, ra),
                table_wf(b, rb),
                self.records == ra + rb,
                0 <= ra,
                0 <= rb,
                self@ == merge_tables(a, entries_table(entries@.take(i as int))),
                self.wf(),
            decreases entries@.len() - i,
        {
            let ghost done = entries@.take(i as int);
            let ghost next = entries@.take(i as int + 1);
            let name = slice_to_vec(entries[i].0.as_slice());
            let st = entries[i].1;
            let ghost k = entries@[i as int].0@;
            proof {
                lemma_entries_table(entries@);
                lemma_entries_table(done);
                assert(distinct_keys(done));
                assert(done =~= next.drop_last());
                assert(next.last() == entries@[i as int]);
                assert(!entries_table(done).contains_key(k)) by {
                    if entries_table(done).contains_key(k) {
                        let j = choose|j: int| 0 <= j < done.len() && (#[trigger] done[j]).0@ == k;
                        assert(done[j] == entries@[j]);
                    }
                }
                lemma_merge_insert(a, entries_table(done), k, entries@[i as int].1@);
                assert(b.contains_key(k) && b[k] == entries@[i as int].1@);
                assert(entries_table(next) == entries_table(done).insert(k, entries@[i as int].1@));
            }
            let ghost before = self@;
            let merged = match map_get(&self.map, name.as_slice()) {
                Some(found) => {
                    let mut cur = found;
                    assert(before.contains_key(k));
                    assert(before[k] == cur@);
                    assert(a.contains_key(k) && a[k] == cur@);
                    cur.add_station(st);
                    assert(stats_wf(cur@) && cur@.count <= ra + rb);
                    cur
                },
                None => {
                    assert(!before.contains_key(k));
                    assert(!a.contains_key(k));
                    assert(stats_wf(st@) && st@.count <= rb);
                    st
                },
            };
            assert(stats_wf(merged@) && merged@.count <= ra + rb);
            assert(table_wf(before, ra + rb));
            map_insert(&mut self.map, name, merged);
            i = i + 1;
            assert(self@ =~= before.insert(k, merged@));
            assert(entries@.take(i as int) == next);
            assert(self.wf()) by {
                assert forall|key: Seq<u8>| #[trigger] self@.contains_key(key) implies stats_wf(
                    self@[key],
                ) && self@[key].count <= self.records by {
                    if key != k {
                        assert(before.contains_key(key));
                        assert(self@[key] == before[key]);
                    } else {
                        assert(self@[key] == merged@);
                    }
                }
            }
        }
        assert(entries@.take(entries@.len() as int) =~= entries@);
    }
}

} // verus!
