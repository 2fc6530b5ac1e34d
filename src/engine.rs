//! The whole pipeline on one span: partition, aggregate each sub-span into a
//! table of its own, merge the tables in order, failing on the first error.
use vstd::prelude::*;
use vstd::slice::slice_subrange;

use crate::error::AggError;
use crate::partition::get_chunks;
use crate::scan::{
    chain, lemma_chain_assoc, lemma_take_until_prefix, parse_records, process_chunk, take_until,
    Obs, RECORD_END,
};
use crate::table::{lemma_observe_all_split, observe_all, Stations};

verus! {

/// A span that is empty or ends with a record terminator parses on its own:
/// the records of `a + b` are those of `a` followed by those of `b`, and the
/// first error of `a + b` is the first error of `a`, else of `b`.
pub proof fn lemma_parse_concat(a: Seq<u8>, b: Seq<u8>)
    requires
        a.len() == 0 || a.last() == RECORD_END,
    ensures
        parse_records(a + b) == chain(parse_records(a), parse_records(b)),
    decreases a.len(),
{
    if a.len() == 0 {
        assert(a + b =~= b);
        match parse_records(b) {
            Ok(y) => {
                assert(Seq::<Obs>::empty() + y =~= y);
            },
            Err(_) => {},
        }
    } else {
        let s = a + b;
        lemma_take_until_prefix(a, b, RECORD_END);
        let line = take_until(a, RECORD_END);
        let ra = a.skip(line.len() + 1 as int);
        assert(s.skip(line.len() + 1 as int) =~= ra + b);
        if ra.len() > 0 {
            assert(ra.last() == a.last());
        }
        lemma_parse_concat(ra, b);
        match crate::scan::record_of(line) {
            Ok(o) => {
                lemma_chain_assoc(Ok(seq![o]), parse_records(ra), parse_records(b));
            },
            Err(_) => {},
        }
    }
}

/// One aligned sub-span splits the records of the rest of the input.
proof fn lemma_chunk_step(data: Seq<u8>, start: int, end: int)
    requires
        0 <= start <= end <= data.len(),
        end == data.len() || start == end || data[end - 1] == RECORD_END,
    ensures
        parse_records(data.skip(start)) == chain(
            parse_records(data.subrange(start, end)),
            parse_records(data.skip(end)),
        ),
{
    let chunk = data.subrange(start, end);
    let rest = data.skip(start);
    assert(rest =~= chunk + data.skip(end));
    if end == data.len() && chunk.len() > 0 && chunk.last() != RECORD_END {
        assert(data.skip(end) =~= Seq::<u8>::empty());
        assert(rest =~= chunk);
        match parse_records(chunk) {
            Ok(y) => {
                assert(y + Seq::<Obs>::empty() =~= y);
            },
            Err(_) => {},
        }
    } else {
        if chunk.len() > 0 {
            assert(chunk.last() == data[end - 1]);
        }
        lemma_parse_concat(chunk, data.skip(end));
    }
}

/// Aggregates the records of `data` with `workers` sub-spans, each into a
/// table of its own, merged in order. The result does not depend on
/// `workers`: it is the table of all the records of `data`, or the first
/// error in `data`.
pub fn aggregate(data: &[u8], workers: usize) -> (r: Result<Stations, AggError>)
    requires
        workers >= 1,
    ensures
        parse_records(data@) is Ok <==> r is Ok,
        r is Err ==> parse_records(data@) == Err::<Seq<Obs>, AggError>(r->Err_0),
        r is Ok ==> (r->Ok_0)@ == observe_all(parse_records(data@)->Ok_0),
        r is Ok ==> (r->Ok_0).records == (parse_records(data@)->Ok_0).len(),
        r is Ok ==> (r->Ok_0).wf(),
{
    let len = data.len();
    let chunks = get_chunks(data, len, workers);
    let mut total = Stations::new();
    let ghost mut done: Seq<Obs> = Seq::empty();
    proof {
        assert(data@.skip(0) =~= data@);
        match parse_records(data@) {
            Ok(y) => {
                assert(done + y =~= y);
            },
            Err(_) => {},
        }
    }
    let mut j: usize = 0;
    let mut pos: usize = 0;
    while j < chunks.len()
        invariant
            j <= chunks@.len(),
            chunks@.len() == workers,
            len == data@.len(),
            crate::partition::covers(chunks@, len as int),
            crate::partition::aligned(chunks@, data@),
            j < chunks@.len() ==> pos == chunks@[j as int].0,
            j == chunks@.len() ==> pos == len,
            pos <= len,
            parse_records(data@) == chain(Ok(done), parse_records(data@.skip(pos as int))),
            total@ == observe_all(done),
            total.records == done.len(),
            done.len() <= pos,
            total.wf(),
        decreases chunks@.len() - j,
    {
        let (start, end) = chunks[j];
        proof {
            assert(start <= end);
            if j + 1 < chunks@.len() {
                assert(crate::partition::meets(chunks@, j as int));
                assert(end == len || (0 < end && data@[end - 1] == RECORD_END));
            } else {
                assert(end == len);
            }
            lemma_chunk_step(data@, start as int, end as int);
        }
        let chunk = slice_subrange(data, start, end);
        proof {
            lemma_chain_assoc(Ok(done), parse_records(chunk@), parse_records(data@.skip(end as int)));
        }
        let part = match process_chunk(chunk) {
            Ok(p) => p,
            Err(e) => {
                return Err(e);
            },
        };
        let ghost recs = parse_records(chunk@)->Ok_0;
        proof {
            lemma_observe_all_split(done, recs);
        }
        total.merge(part);
        proof {
            done = done + recs;
        }
        j = j + 1;
        pos = end;
    }
    proof {
        assert(data@.skip(len as int) =~= Seq::<u8>::empty());
        assert(done + Seq::<Obs>::empty() =~= done);
    }
    Ok(total)
}

} // verus!
