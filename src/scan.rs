//! Scanning a span of `key;value\n` records and aggregating it into a table.
use vstd::prelude::*;
use vstd::slice::slice_subrange;

use crate::error::AggError;
use crate::table::{observe_all, Stations};
use crate::value::{field_value, parse_int};

verus! {

/// The field terminator, `;`.
pub const FIELD_END: u8 = 59;

/// The record terminator, `\n`.
pub const RECORD_END: u8 = 10;

/// One observation: key bytes and value in tenths.
pub type Obs = (Seq<u8>, int);

/// The longest prefix of `s` without the byte `t`.
pub open spec fn take_until(s: Seq<u8>, t: u8) -> Seq<u8>
    decreases s.len(),
{
    if s.len() == 0 || s[0] == t {
        Seq::empty()
    } else {
        seq![s[0]] + take_until(s.drop_first(), t)
    }
}

/// The prefix without `t` stops at the first `t`, or at the end of `s`.
pub proof fn lemma_take_until(s: Seq<u8>, t: u8)
    ensures
        take_until(s, t).len() <= s.len(),
        take_until(s, t) == s.take(take_until(s, t).len() as int),
        forall|k: int| 0 <= k < take_until(s, t).len() ==> s[k] != t,
        take_until(s, t).len() < s.len() ==> s[take_until(s, t).len() as int] == t,
    decreases s.len(),
{
    if s.len() > 0 && s[0] != t {
        let r = s.drop_first();
        lemma_take_until(r, t);
        assert(take_until(s, t) =~= s.take(take_until(s, t).len() as int));
        assert forall|k: int| 0 <= k < take_until(s, t).len() implies s[k] != t by {
            if k > 0 {
                assert(s[k] == r[k - 1]);
            }
        }
    } else {
        assert(s.take(0) =~= Seq::<u8>::empty());
    }
}

/// A prefix that already holds `t` decides where `take_until` stops.
pub proof fn lemma_take_until_prefix(a: Seq<u8>, b: Seq<u8>, t: u8)
    requires
        exists|k: int| 0 <= k < a.len() && a[k] == t,
    ensures
        take_until(a + b, t) == take_until(a, t),
        take_until(a, t).len() < a.len(),
{
    lemma_take_until(a, t);
    lemma_take_until(a + b, t);
    let e = take_until(a, t).len() as int;
    let f = take_until(a + b, t).len() as int;
    let k = choose|k: int| 0 <= k < a.len() && a[k] == t;
    if e == a.len() {
        assert(a[k] != t);
    }
    assert((a + b)[e] == t);
    if f < e {
        assert((a + b)[f] == a[f]);
    }
    if f > e {
        assert((a + b)[e] != t);
    }
    assert(take_until(a + b, t) =~= take_until(a, t));
}

/// The observation that one line holds: the key up to the first `;`, and the
/// value after it.
pub open spec fn record_of(line: Seq<u8>) -> Result<Obs, AggError> {
    let key = take_until(line, FIELD_END);
    if key.len() >= line.len() {
        Err(AggError::TruncatedRecord)
    } else {
        match field_value(line.skip(key.len() + 1 as int)) {
            Some(v) => Ok((key, v)),
            None => Err(AggError::MalformedValue),
        }
    }
}

/// `first` followed by `rest`: the first error of the two, or both lists of
/// observations one after the other.
pub open spec fn chain(
    first: Result<Seq<Obs>, AggError>,
    rest: Result<Seq<Obs>, AggError>,
) -> Result<Seq<Obs>, AggError> {
    match first {
        Err(e) => Err(e),
        Ok(x) => match rest {
            Err(e) => Err(e),
            Ok(y) => Ok(x + y),
        },
    }
}

/// The observations of a span, line by line, or the first error in it. A
/// last line without a record terminator is a record like the others.
pub open spec fn parse_records(s: Seq<u8>) -> Result<Seq<Obs>, AggError>
    decreases s.len(),
{
    if s.len() == 0 {
        Ok(Seq::empty())
    } else {
        let line = take_until(s, RECORD_END);
        let rest = if line.len() < s.len() {
            s.skip(line.len() + 1 as int)
        } else {
            Seq::empty()
        };
        match record_of(line) {
            Err(e) => Err(e),
            Ok(o) => chain(Ok(seq![o]), parse_records(rest)),
        }
    }
}

pub proof fn lemma_chain_assoc(
    p: Result<Seq<Obs>, AggError>,
    q: Result<Seq<Obs>, AggError>,
    r: Result<Seq<Obs>, AggError>,
)
    ensures
        chain(p, chain(q, r)) == chain(chain(p, q), r),
{
    match (p, q, r) {
        (Ok(x), Ok(y), Ok(z)) => {
            assert(x + (y + z) =~= (x + y) + z);
        },
        _ => {},
    }
}

/// The part of `chunk` from `start` up to, not including, the first byte
/// `target`, or up to the end where there is none.
pub fn eat(chunk: &[u8], start: usize, target: u8) -> (r: &[u8])
    requires
        start <= chunk@.len(),
    ensures
        r@ == take_until(chunk@.skip(start as int), target),
{
    let len = chunk.len();
    let mut i = start;
    while i < len && chunk[i] != target
        invariant
            start <= i <= len,
            len == chunk@.len(),
            forall|k: int| start <= k < i ==> chunk@[k] != target,
        decreases len - i,
    {
        i = i + 1;
    }
    let ghost s = chunk@.skip(start as int);
    proof {
        lemma_take_until(s, target);
        let e = take_until(s, target).len() as int;
        let f = i - start;
        if e < f {
            assert(s[e] == chunk@[start + e]);
        }
        if f < e {
            assert(s[f] == chunk@[i as int]);
        }
        assert(s.take(e) =~= chunk@.subrange(start as int, i as int));
    }
    slice_subrange(chunk, start, i)
}

/// Aggregates the records of one span into a fresh table, or fails with the
/// first error in the span: a line without `;` is a `TruncatedRecord`, a
/// value outside the grammar a `MalformedValue`.
pub fn process_chunk(chunk: &[u8]) -> (r: Result<Stations, AggError>)
    ensures
        parse_records(chunk@) is Ok <==> r is Ok,
        r is Err ==> parse_records(chunk@) == Err::<Seq<Obs>, AggError>(r->Err_0),
        r is Ok ==> (r->Ok_0)@ == observe_all(parse_records(chunk@)->Ok_0),
        r is Ok ==> (r->Ok_0).records == (parse_records(chunk@)->Ok_0).len(),
        r is Ok ==> (r->Ok_0).records <= chunk@.len(),
        r is Ok ==> (r->Ok_0).wf(),
{
    let mut stations = Stations::new();
    let len = chunk.len();
    let mut i: usize = 0;
    let ghost mut done: Seq<Obs> = Seq::empty();
    proof {
        assert(chunk@.skip(0) =~= chunk@);
        assert(chain(Ok(done), parse_records(chunk@)) == parse_records(chunk@)) by {
            match parse_records(chunk@) {
                Ok(y) => {
                    assert(done + y =~= y);
                },
                Err(_) => {},
            }
        }
    }
    while i < len
        invariant
            i <= len,
            len == chunk@.len(),
            parse_records(chunk@) == chain(Ok(done), parse_records(chunk@.skip(i as int))),
            stations@ == observe_all(done),
            stations.records == done.len(),
            done.len() <= i,
            stations.wf(),
        decreases len - i,
    {
        let ghost rest = chunk@.skip(i as int);
        let line = eat(chunk, i, RECORD_END);
        let name = eat(line, 0, FIELD_END);
        proof {
            lemma_take_until(rest, RECORD_END);
            lemma_take_until(line@, FIELD_END);
            assert(line@.skip(0) =~= line@);
        }
        if name.len() == line.len() {
            return Err(AggError::TruncatedRecord);
        }
        let value = slice_subrange(line, name.len() + 1, line.len());
        assert(value@ =~= line@.skip(name@.len() + 1 as int));
        let v = match parse_int(value) {
            Ok(v) => v,
            Err(e) => {
                return Err(e);
            },
        };
        let ghost o: Obs = (name@, v as int);
        let next = if line.len() < len - i {
            i + line.len() + 1
        } else {
            len
        };
        proof {
            let after = if line@.len() < rest.len() {
                rest.skip(line@.len() + 1 as int)
            } else {
                Seq::empty()
            };
            assert(after =~= chunk@.skip(next as int));
            assert(parse_records(rest) == chain(Ok(seq![o]), parse_records(after)));
            lemma_chain_assoc(Ok(done), Ok(seq![o]), parse_records(after));
            assert(done + seq![o] =~= done.push(o));
            assert(done.push(o).drop_last() =~= done);
        }
        stations.insert(name, v);
        proof {
            done = done.push(o);
        }
        i = next;
    }
    proof {
        assert(chunk@.skip(i as int) =~= Seq::<u8>::empty());
        assert(done + Seq::<Obs>::empty() =~= done);
    }
    Ok(stations)
}

} // verus!
