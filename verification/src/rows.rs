//! Extraction of a contiguous range of data rows.

use crate::error::{CsvSliceError, Failure};
use crate::model::{
    first_failure, has_failure, is_first_failure, lemma_first_failure_exists,
    lemma_first_failure_unique, records_between, Fields, Outcome,
};
use crate::reader::{describe, fields, open_reader, parsed_records, pending, read_record};
use csv::StringRecord;
use vstd::math::min;
use vstd::prelude::*;

verus! {

/// What a scan does with the row that it has just read.
#[derive(Debug, Clone, Copy, PartialEq, Eq, Structural)]
pub enum RowStep {
    /// The row lies before the range: drop it and read on.
    Skip,
    /// The row lies in the range: keep it and read on.
    Keep,
    /// The row lies past the range: drop it and read no further.
    Stop,
}

/// What becomes of the row at `index` when the range is `[start, end)`.
pub open spec fn step_at(index: int, start: int, end: int) -> RowStep {
    if index >= end {
        RowStep::Stop
    } else if index >= start {
        RowStep::Keep
    } else {
        RowStep::Skip
    }
}

/// Decides what becomes of the row at `index` when the range is
/// `[start, end)`. With `start >= end` no row is kept.
pub fn row_step(index: usize, start: usize, end: usize) -> (step: RowStep)
    ensures
        step == step_at(index as int, start as int, end as int),
        step == RowStep::Keep <==> start <= index < end,
{
    if index >= end {
        RowStep::Stop
    } else if index >= start {
        RowStep::Keep
    } else {
        RowStep::Skip
    }
}

/// The fields of each record of `rows`.
pub open spec fn rows_view(rows: Seq<StringRecord>) -> Seq<Fields> {
    Seq::new(rows.len(), |i: int| fields(rows[i]))
}

/// What extracting the rows `[start, end)` gives, for a reader that yields
/// `outcomes`.
///
/// The reader is consulted for the rows `0..=end` and no further: a failure
/// among those is reported, the earliest one; a later one is never seen.
/// Otherwise the result holds the rows whose position lies in the range, in
/// their order, and the range is cut to the rows that exist.
pub open spec fn rows_in_range(outcomes: Seq<Outcome>, start: int, end: int) -> Result<
    Seq<Fields>,
    Failure,
> {
    let seen = outcomes.take(min(outcomes.len() as int, end + 1));
    if has_failure(seen) {
        Err(Failure::Csv(seen[first_failure(seen)]->Err_0))
    } else {
        Ok(
            records_between(
                outcomes,
                min(start, outcomes.len() as int),
                min(end, outcomes.len() as int),
            ),
        )
    }
}

/// Returns the data rows of `data` whose zero-based position lies in
/// `[start, end)`. The header is not a data row and is never returned. A row
/// is returned with the fields that it has, be they fewer or more than the
/// header's.
///
/// Reading stops with the row at position `end`, so the rest of the input is
/// not tokenised.
pub fn extract_rows(data: &[u8], start: usize, end: usize) -> (result: Result<
    Vec<StringRecord>,
    CsvSliceError,
>)
    ensures
        match rows_in_range(parsed_records(data@), start as int, end as int) {
            Ok(rows) => result is Ok && rows_view(result->Ok_0@) == rows,
            Err(failure) => result is Err && result->Err_0@ == failure,
        },
        result is Ok && start <= end ==> result->Ok_0@.len() == min(
            end as int,
            parsed_records(data@).len() as int,
        ) - min(start as int, parsed_records(data@).len() as int),
{
    let ghost all = parsed_records(data@);
    let mut reader = open_reader(data, true);
    let mut rows: Vec<StringRecord> = Vec::new();
    let mut index: usize = 0;
    proof {
        assert(all.skip(0) == all);
        assert(rows_view(rows@) == records_between(all, min(start as int, 0), 0));
    }
    loop
        invariant
            all == parsed_records(data@),
            index <= end,
            index <= all.len(),
            pending(reader) == all.skip(index as int),
            forall|j: int| 0 <= j < index ==> (#[trigger] all[j]) is Ok,
            rows_view(rows@) == records_between(
                all,
                min(start as int, index as int),
                index as int,
            ),
        decreases all.len() - index,
    {
        let mut record = StringRecord::new();
        let ghost seen = all.take(min(all.len() as int, end + 1));
        match read_record(&mut reader, &mut record) {
            Err(error) => {
                proof {
                    assert(all.skip(index as int)[0] == all[index as int]);
                    assert(is_first_failure(seen, index as int));
                    lemma_first_failure_unique(seen, index as int);
                }
                return Err(CsvSliceError::Csv(describe(&error)));
            },
            Ok(false) => {
                proof {
                    assert(index == all.len());
                    assert(seen == all);
                    assert(!has_failure(seen));
                    assert(rows_view(rows@).len() == rows@.len());
                }
                return Ok(rows);
            },
            Ok(true) => {
                proof {
                    assert(all.skip(index as int)[0] == all[index as int]);
                    assert(all.skip(index as int).drop_first() == all.skip(index + 1));
                }
                match row_step(index, start, end) {
                    RowStep::Stop => {
                        proof {
                            assert forall|k: int| 0 <= k < seen.len() implies (
                            #[trigger] seen[k]) is Ok by {
                                assert(seen[k] == all[k]);
                            }
                            assert(!has_failure(seen));
                            assert(rows_view(rows@) == records_between(
                                all,
                                min(start as int, all.len() as int),
                                min(end as int, all.len() as int),
                            ));
                        }
                        return Ok(rows);
                    },
                    RowStep::Keep => {
                        let ghost before = rows@;
                        rows.push(record);
                        proof {
                            assert(rows_view(rows@) == rows_view(before).push(fields(record)));
                            assert(rows_view(rows@) == records_between(
                                all,
                                min(start as int, index + 1),
                                index + 1,
                            ));
                        }
                    },
                    RowStep::Skip => {
                        proof {
                            assert(rows_view(rows@) == records_between(
                                all,
                                min(start as int, index + 1),
                                index + 1,
                            ));
                        }
                    },
                }
                index = index + 1;
            },
        }
    }
}

/// The number of rows extracted: for `start <= end`, a successful extraction
/// of `[start, end)` holds as many rows as lie between the two bounds, each
/// bound cut to the number of data rows.
pub proof fn lemma_row_count(outcomes: Seq<Outcome>, start: int, end: int)
    requires
        0 <= start <= end,
    ensures
        rows_in_range(outcomes, start, end) matches Ok(rows) ==> rows.len() == min(
            end,
            outcomes.len() as int,
        ) - min(start, outcomes.len() as int),
{
}

/// The whole range: extracting `[0, n)` from `n` data rows reads every one of
/// them, and so gives all of them in their order, or the earliest failure.
pub proof fn lemma_whole_range(outcomes: Seq<Outcome>)
    ensures
        rows_in_range(outcomes, 0, outcomes.len() as int) == if has_failure(outcomes) {
            Err::<Seq<Fields>, Failure>(Failure::Csv(outcomes[first_failure(outcomes)]->Err_0))
        } else {
            Ok::<Seq<Fields>, Failure>(Seq::new(outcomes.len(), |i: int| outcomes[i]->Ok_0))
        },
{
    let n = outcomes.len() as int;
    assert(outcomes.take(min(n, n + 1)) == outcomes);
    if !has_failure(outcomes) {
        assert(records_between(outcomes, 0, n) == Seq::new(
            outcomes.len(),
            |i: int| outcomes[i]->Ok_0,
        ));
    }
}

/// Adjacent ranges compose: for `a <= b <= c`, where the rows `[b, c)` can be
/// extracted, so can the rows `[a, b)` and the rows `[a, c)`, and the rows
/// `[a, c)` are those of `[a, b)` followed by those of `[b, c)`, with no row
/// lost or repeated.
pub proof fn lemma_ranges_compose(outcomes: Seq<Outcome>, a: int, b: int, c: int)
    requires
        0 <= a <= b <= c,
    ensures
        rows_in_range(outcomes, b, c) is Ok ==> {
            &&& rows_in_range(outcomes, a, b) is Ok
            &&& rows_in_range(outcomes, a, c) is Ok
            &&& rows_in_range(outcomes, a, c)->Ok_0 == rows_in_range(outcomes, a, b)->Ok_0
                + rows_in_range(outcomes, b, c)->Ok_0
        },
{
    let n = outcomes.len() as int;
    let upto_b = outcomes.take(min(n, b + 1));
    let upto_c = outcomes.take(min(n, c + 1));
    if rows_in_range(outcomes, b, c) is Ok {
        assert(!has_failure(upto_c));
        if has_failure(upto_b) {
            let k = choose|k: int| 0 <= k < upto_b.len() && (#[trigger] upto_b[k]) is Err;
            assert(upto_c[k] == upto_b[k]);
        }
        assert(rows_in_range(outcomes, a, c)->Ok_0 =~= rows_in_range(outcomes, a, b)->Ok_0
            + rows_in_range(outcomes, b, c)->Ok_0);
    }
}

/// A row that cannot be tokenised fails the extraction exactly when it lies
/// at or before position `end`: then the result is the parse failure with the
/// text of the earliest such row. Where no such row lies there, the
/// extraction succeeds.
pub proof fn lemma_failure_within_reach(outcomes: Seq<Outcome>, start: int, end: int)
    requires
        0 <= start,
        0 <= end,
    ensures
        rows_in_range(outcomes, start, end) is Err <==> exists|k: int|
            0 <= k < outcomes.len() && k <= end && (#[trigger] outcomes[k]) is Err,
        rows_in_range(outcomes, start, end) matches Err(failure) ==> exists|k: int|
            k <= end && is_first_failure(outcomes, k) && failure == Failure::Csv(
                outcomes[k]->Err_0,
            ),
{
    let seen = outcomes.take(min(outcomes.len() as int, end + 1));
    if has_failure(seen) {
        lemma_first_failure_exists(seen);
        let k = first_failure(seen);
        assert(seen[k] == outcomes[k]);
        assert forall|j: int| 0 <= j < k implies (#[trigger] outcomes[j]) is Ok by {
            assert(seen[j] == outcomes[j]);
        }
        assert(is_first_failure(outcomes, k));
    }
    if exists|k: int| 0 <= k < outcomes.len() && k <= end && (#[trigger] outcomes[k]) is Err {
        let k = choose|k: int|
            0 <= k < outcomes.len() && k <= end && (#[trigger] outcomes[k]) is Err;
        assert(seen[k] == outcomes[k]);
    }
}

} // verus!
