//! Fetch normalization: turning one batch's decoded response into price
//! records, and collecting the records of the batches that succeeded.

use vstd::prelude::*;

verus! {

use crate::price::Price;
use crate::symbol::Symbol;

/// Builds one batch's price records: one record per `(tsym, rate)` entry
/// of the response, all quoted for `fsym` and stamped with one timestamp.
pub fn prices_from_response(fsym: Symbol, rates: &Vec<(Symbol, u64)>, timestamp: u64) -> (r: Vec<
    Price,
>)
    ensures
        r@.len() == rates@.len(),
        forall|i: int|
            0 <= i < rates@.len() ==> r@[i] == (Price {
                fsym,
                tsym: rates@[i].0,
                rate: rates@[i].1,
                timestamp,
            }),
{
    let mut out: Vec<Price> = Vec::new();
    let mut i: usize = 0;
    while i < rates.len()
        invariant
            i <= rates@.len(),
            out@.len() == i,
            forall|j: int|
                0 <= j < i ==> out@[j] == (Price {
                    fsym,
                    tsym: rates@[j].0,
                    rate: rates@[j].1,
                    timestamp,
                }),
        decreases rates@.len() - i,
    {
        let (tsym, rate) = rates[i];
        out.push(Price { fsym, tsym, rate, timestamp });
        i += 1;
    }
    out
}

/// The view of one batch outcome: the records of a successful batch, or
/// nothing for a failed one.
pub open spec fn batch_view(o: Option<Vec<Price>>) -> Option<Seq<Price>> {
    match o {
        Some(v) => Some(v@),
        None => None,
    }
}

/// The concatenation of the successful batches, in order; failed batches
/// contribute nothing.
pub open spec fn successes_concat(results: Seq<Option<Seq<Price>>>) -> Seq<Price>
    decreases results.len(),
{
    if results.len() == 0 {
        Seq::empty()
    } else {
        let rest = successes_concat(results.drop_last());
        match results.last() {
            Some(b) => rest + b,
            None => rest,
        }
    }
}

/// Collects the records of the batches that succeeded, in batch order. A
/// failed batch drops out without failing the whole fetch.
pub fn collect_batches(results: Vec<Option<Vec<Price>>>) -> (r: Vec<Price>)
    ensures
        r@ == successes_concat(results@.map_values(|o: Option<Vec<Price>>| batch_view(o))),
{
    let ghost mapped = results@.map_values(|o: Option<Vec<Price>>| batch_view(o));
    let mut out: Vec<Price> = Vec::new();
    let mut i: usize = 0;
    proof {
        assert(mapped.subrange(0, 0) =~= Seq::<Option<Seq<Price>>>::empty());
    }
    while i < results.len()
        invariant
            i <= results@.len(),
            mapped == results@.map_values(|o: Option<Vec<Price>>| batch_view(o)),
            mapped.len() == results@.len(),
            out@ == successes_concat(mapped.subrange(0, i as int)),
        decreases results@.len() - i,
    {
        match &results[i] {
            Some(batch) => {
                let mut j: usize = 0;
                let ghost out_before = out@;
                while j < batch.len()
                    invariant
                        j <= batch@.len(),
                        out@ == out_before + batch@.subrange(0, j as int),
                    decreases batch@.len() - j,
                {
                    out.push(batch[j]);
                    proof {
                        assert(batch@.subrange(0, j + 1) =~= batch@.subrange(0, j as int).push(
                            batch@[j as int],
                        ));
                        assert(out@ =~= out_before + batch@.subrange(0, j + 1));
                    }
                    j += 1;
                }
                proof {
                    assert(batch@.subrange(0, batch@.len() as int) =~= batch@);
                    assert(mapped.subrange(0, i + 1).drop_last() =~= mapped.subrange(
                        0,
                        i as int,
                    ));
                    assert(mapped.subrange(0, i + 1).last() == mapped[i as int]);
                    assert(mapped[i as int] == Some(batch@));
                }
            },
            None => {
                proof {
                    assert(mapped.subrange(0, i + 1).drop_last() =~= mapped.subrange(
                        0,
                        i as int,
                    ));
                    assert(mapped.subrange(0, i + 1).last() == mapped[i as int]);
                    assert(mapped[i as int] is None);
                }
            },
        }
        i += 1;
    }
    proof {
        assert(mapped.subrange(0, mapped.len() as int) =~= mapped);
    }
    out
}

/// Partial-failure resilience: however many batches fail, every record of
/// every successful batch stands in the collected result.
pub proof fn lemma_partial_failure(
    results: Seq<Option<Seq<Price>>>,
    i: int,
    batch: Seq<Price>,
    p: Price,
)
    requires
        0 <= i < results.len(),
        results[i] == Some(batch),
        batch.contains(p),
    ensures
        successes_concat(results).contains(p),
    decreases results.len(),
{
    let rest = successes_concat(results.drop_last());
    if i == results.len() - 1 {
        let k = choose|k: int| 0 <= k < batch.len() && batch[k] == p;
        assert(successes_concat(results) == rest + batch);
        assert((rest + batch)[rest.len() + k] == p);
        assert(successes_concat(results).contains(p));
    } else {
        lemma_partial_failure(results.drop_last(), i, batch, p);
        let k = choose|k: int| 0 <= k < rest.len() && rest[k] == p;
        match results.last() {
            Some(b) => {
                assert((rest + b)[k] == p);
                assert(successes_concat(results).contains(p));
            },
            None => {
                assert(successes_concat(results).contains(p));
            },
        }
    }
}

} // verus!
