//! The report as one line of text: `{key=min/mean/max, ...}`, each value
//! in tenths written with exactly one fractional digit.
use vstd::prelude::*;

use crate::report::{report_view, ReportEntry};

verus! {

/// The decimal digits of `n`, most significant first, without leading zeros
/// (`0` is written `0`).
pub open spec fn nat_digits(n: nat) -> Seq<u8>
    decreases n,
{
    if n < 10 {
        seq![(48 + n) as u8]
    } else {
        nat_digits(n / 10).push((48 + n % 10) as u8)
    }
}

/// A value in tenths as a decimal with one fractional digit: `-55` is
/// `-5.5`, `150` is `15.0`, `3` is `0.3`.
pub open spec fn tenths_text(v: int) -> Seq<u8> {
    let a = if v < 0 {
        -v
    } else {
        v
    };
    let sign = if v < 0 {
        seq![45u8]
    } else {
        Seq::empty()
    };
    sign + nat_digits((a / 10) as nat) + seq![46u8, (48 + a % 10) as u8]
}

/// One entry: `key=min/mean/max`.
pub open spec fn entry_text(e: (Seq<u8>, int, int, int)) -> Seq<u8> {
    e.0 + seq![61u8] + tenths_text(e.1) + seq![47u8] + tenths_text(e.2) + seq![47u8] + tenths_text(
        e.3,
    )
}

/// The entries' texts joined by `, `.
pub open spec fn joined_text(r: Seq<(Seq<u8>, int, int, int)>) -> Seq<u8>
    decreases r.len(),
{
    if r.len() == 0 {
        Seq::empty()
    } else if r.len() == 1 {
        entry_text(r[0])
    } else {
        joined_text(r.drop_last()) + seq![44u8, 32u8] + entry_text(r.last())
    }
}

/// The whole report line, in braces.
pub open spec fn report_text(r: Seq<(Seq<u8>, int, int, int)>) -> Seq<u8> {
    seq![123u8] + joined_text(r) + seq![125u8]
}

fn push_digits(out: &mut Vec<u8>, n: u64)
    ensures
        final(out)@ == old(out)@ + nat_digits(n as nat),
    decreases n,
{
    if n < 10 {
        out.push((48 + n) as u8);
    } else {
        push_digits(out, n / 10);
        out.push((48 + n % 10) as u8);
    }
    proof {
        if n >= 10 {
            assert(old(out)@ + nat_digits(n as nat) =~= (old(out)@ + nat_digits((n / 10) as nat)).push(
                (48 + n % 10) as u8,
            ));
        }
    }
}

fn push_tenths(out: &mut Vec<u8>, v: i32)
    ensures
        final(out)@ == old(out)@ + tenths_text(v as int),
{
    let a: u64 = if v < 0 {
        (-(v as i64)) as u64
    } else {
        v as u64
    };
    if v < 0 {
        out.push(45u8);
    }
    let ghost signed = out@;
    push_digits(out, a / 10);
    out.push(46u8);
    out.push((48 + a % 10) as u8);
    proof {
        let sign = if v < 0 {
            seq![45u8]
        } else {
            Seq::empty()
        };
        assert(signed =~= old(out)@ + sign);
        assert(out@ =~= old(out)@ + tenths_text(v as int));
    }
}

fn push_entry(out: &mut Vec<u8>, e: &ReportEntry)
    ensures
        final(out)@ == old(out)@ + entry_text(e@),
{
    let mut i: usize = 0;
    while i < e.name.len()
        invariant
            i <= e.name@.len(),
            out@ == old(out)@ + e.name@.take(i as int),
        decreases e.name@.len() - i,
    {
        out.push(e.name[i]);
        i = i + 1;
        assert(out@ =~= old(out)@ + e.name@.take(i as int));
    }
    assert(e.name@.take(i as int) =~= e.name@);
    out.push(61u8);
    push_tenths(out, e.min);
    out.push(47u8);
    push_tenths(out, e.mean);
    out.push(47u8);
    push_tenths(out, e.max);
    assert(out@ =~= old(out)@ + entry_text(e@));
}

/// Writes a report as one line: `{key=min/mean/max, ...}`, entries in the
/// given order, separated by `, `.
pub fn render_report(report: &Vec<ReportEntry>) -> (r: Vec<u8>)
    ensures
        r@ == report_text(report_view(report@)),
{
    let mut out: Vec<u8> = Vec::new();
    out.push(123u8);
    let mut i: usize = 0;
    while i < report.len()
        invariant
            i <= report@.len(),
            out@ == seq![123u8] + joined_text(report_view(report@).take(i as int)),
        decreases report@.len() - i,
    {
        let ghost before = out@;
        if i > 0 {
            out.push(44u8);
            out.push(32u8);
        }
        push_entry(&mut out, &report[i]);
        proof {
            let rv = report_view(report@);
            let t = rv.take(i + 1);
            assert(t.drop_last() =~= rv.take(i as int));
            assert(t.last() == report@[i as int]@);
            if i == 0 {
                assert(joined_text(rv.take(0)) =~= Seq::<u8>::empty());
            }
            assert(out@ =~= seq![123u8] + joined_text(t));
        }
        i = i + 1;
    }
    out.push(125u8);
    proof {
        assert(report_view(report@).take(i as int) =~= report_view(report@));
        assert(out@ =~= report_text(report_view(report@)));
    }
    out
}

} // verus!
