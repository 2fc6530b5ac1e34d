use station_stats::engine::aggregate;
use station_stats::error::AggError;
use station_stats::partition::get_chunks;
use station_stats::render::render_report;
use station_stats::report::ReportEntry;
use station_stats::station::Station;
use station_stats::table::Stations;

fn entry(name: &str, min: i32, mean: i32, max: i32) -> ReportEntry {
    ReportEntry { name: name.as_bytes().to_vec(), min, mean, max }
}

const SCENARIO: &[u8] = b"A;10.0\nB;-5.5\nA;20.0\n";

#[test]
fn scenario_one_worker() {
    let t = aggregate(SCENARIO, 1).unwrap();
    assert_eq!(
        t.report(),
        vec![entry("A", 100, 150, 200), entry("B", -55, -55, -55)]
    );
    assert_eq!(
        render_report(&t.report()),
        b"{A=10.0/15.0/20.0, B=-5.5/-5.5/-5.5}".to_vec()
    );
}

#[test]
fn scenario_three_workers() {
    let chunks = get_chunks(SCENARIO, SCENARIO.len(), 3);
    assert_eq!(chunks, vec![(0, 14), (14, 21), (21, 21)]);
    let one = aggregate(SCENARIO, 1).unwrap().report();
    for workers in 2..=8 {
        let t = aggregate(SCENARIO, workers).unwrap();
        assert_eq!(t.report(), one);
        assert_eq!(
            render_report(&t.report()),
            b"{A=10.0/15.0/20.0, B=-5.5/-5.5/-5.5}".to_vec()
        );
    }
}

#[test]
fn malformed_input_fails_whole_run() {
    assert_eq!(
        aggregate(b"A;10.0\nB;abc\nA;20.0\n", 2).err(),
        Some(AggError::MalformedValue)
    );
    assert_eq!(aggregate(b"A;10.0\nB\n", 3).err(), Some(AggError::TruncatedRecord));
}

#[test]
fn rounding_half_away_from_zero() {
    // sum 15 tenths over 2 records: mean 7.5 tenths, reported as 8
    let input = b"K;1.0\nK;0.5\nN;-1.0\nN;-0.5\n";
    let first = aggregate(input, 1).unwrap().report();
    let second = aggregate(input, 2).unwrap().report();
    assert_eq!(first, vec![entry("K", 5, 8, 10), entry("N", -10, -8, -5)]);
    assert_eq!(first, second);
}

#[test]
fn single_record() {
    let t = aggregate(b"Hamburg;-12.3", 4).unwrap();
    assert_eq!(t.report(), vec![entry("Hamburg", -123, -123, -123)]);
}

#[test]
fn report_twice_is_identical() {
    let t = aggregate(b"b;1.0\na;2.0\nab;3.0\nb;4.0\n", 2).unwrap();
    let r1 = t.report();
    let r2 = t.report();
    assert_eq!(r1, r2);
    let names: Vec<&[u8]> = r1.iter().map(|e| e.name.as_slice()).collect();
    assert_eq!(names, vec![&b"a"[..], b"ab", b"b"]);
    assert_eq!(r1[2], entry("b", 10, 25, 40));
}

#[test]
fn empty_input() {
    let t = aggregate(b"", 3).unwrap();
    assert_eq!(t.records(), 0);
    assert!(t.report().is_empty());
    assert_eq!(get_chunks(b"", 0, 3), vec![(0, 0), (0, 0), (0, 0)]);
}

#[test]
fn chunks_cover_and_align() {
    let data = b"abc;1\nde;2\nfghij;3\nk;4\n";
    for n in 1..=10 {
        let c = get_chunks(data, data.len(), n);
        assert_eq!(c.len(), n);
        assert_eq!(c[0].0, 0);
        assert_eq!(c[n - 1].1, data.len());
        for t in 0..n {
            assert!(c[t].0 <= c[t].1);
            if t + 1 < n {
                assert_eq!(c[t].1, c[t + 1].0);
                assert!(c[t].1 == data.len() || data[c[t].1 - 1] == b'\n');
            }
        }
    }
    assert_eq!(get_chunks(data, data.len(), 1), vec![(0, data.len())]);
}

#[test]
fn chunks_clamp_when_records_are_sparse() {
    // one long line: every boundary lands at the end
    let data = b"averyveryverylongname;1.0";
    assert_eq!(
        get_chunks(data, data.len(), 3),
        vec![(0, 25), (25, 25), (25, 25)]
    );
}

#[test]
fn station_statistics() {
    let mut s = Station::new(-30);
    assert_eq!((s.min, s.max, s.total, s.count), (-30, -30, -30, 1));
    s.add_value(50);
    assert_eq!((s.min, s.max, s.total, s.count), (-30, 50, 20, 2));
    assert_eq!(s.mean(), 10);
    let mut o = Station::new(-100);
    o.add_value(1);
    s.add_station(o);
    assert_eq!((s.min, s.max, s.total, s.count), (-100, 50, -79, 4));
    // -79 / 4 = -19.75, rounds to -20
    assert_eq!(s.mean(), -20);
}

#[test]
fn merge_orders_agree() {
    let a = || {
        let mut t = Stations::new();
        t.insert(b"x", 10);
        t.insert(b"y", -5);
        t
    };
    let b = || {
        let mut t = Stations::new();
        t.insert(b"x", 30);
        t
    };
    let c = || {
        let mut t = Stations::new();
        t.insert(b"y", 7);
        t.insert(b"z", 1);
        t
    };
    let mut ab_c = a();
    ab_c.merge(b());
    ab_c.merge(c());
    let mut c_ba = c();
    let mut ba = b();
    ba.merge(a());
    c_ba.merge(ba);
    assert_eq!(ab_c.records(), 5);
    assert_eq!(c_ba.records(), 5);
    assert_eq!(ab_c.report(), c_ba.report());
    let x = ab_c.get(b"x").unwrap();
    assert_eq!((x.min, x.max, x.total, x.count), (10, 30, 40, 2));
    assert_eq!(
        ab_c.report(),
        vec![entry("x", 10, 20, 30), entry("y", -5, 1, 7), entry("z", 1, 1, 1)]
    );
}

#[test]
fn insert_updates_existing_key() {
    let mut t = Stations::new();
    t.insert(b"k", 5);
    t.insert(b"k", -5);
    t.insert(b"other", 0);
    let k = t.get(b"k").unwrap();
    assert_eq!((k.min, k.max, k.total, k.count), (-5, 5, 0, 2));
    assert_eq!(t.records(), 3);
    assert!(t.get(b"missing").is_none());
}

#[test]
fn renders_values_with_one_fractional_digit() {
    assert_eq!(render_report(&vec![]), b"{}".to_vec());
    assert_eq!(
        render_report(&vec![entry("z", 0, 3, -3)]),
        b"{z=0.0/0.3/-0.3}".to_vec()
    );
    assert_eq!(
        render_report(&vec![entry("a", i32::MIN, 1234, i32::MAX), entry("b", -10, 7, 100)]),
        b"{a=-214748364.8/123.4/214748364.7, b=-1.0/0.7/10.0}".to_vec()
    );
}

#[test]
fn rendered_rounding_scenario() {
    let t = aggregate(b"K;1.0\nK;0.5\n", 1).unwrap();
    assert_eq!(render_report(&t.report()), b"{K=0.5/0.8/1.0}".to_vec());
}
