//! Extraction of named columns: resolving names against the header, and
//! projecting each data row onto the resolved positions.

use crate::error::{CsvSliceError, Failure};
use crate::model::{
    first_failure, has_failure, is_first_failure, lemma_first_failure_unique,
    same_but_first_text, Fields, Outcome,
};
use crate::reader::{
    describe, fields, open_reader, parsed_header, parsed_records, pending, read_header,
    read_record, records_after_header,
};
use csv::StringRecord;
use vstd::prelude::*;

verus! {

/// The text of each string of `strings`.
pub open spec fn texts(strings: Seq<String>) -> Fields {
    Seq::new(strings.len(), |i: int| strings[i]@)
}

/// The text of each requested name.
pub open spec fn names(columns: Seq<&str>) -> Fields {
    Seq::new(columns.len(), |i: int| columns[i]@)
}

/// Field positions as mathematical integers.
pub open spec fn positions(indices: Seq<usize>) -> Seq<int> {
    Seq::new(indices.len(), |i: int| indices[i] as int)
}

/// The text of each field of each row of `rows`.
pub open spec fn table(rows: Seq<Vec<String>>) -> Seq<Fields> {
    Seq::new(rows.len(), |i: int| texts(rows[i]@))
}

/// `i` is the position of the first field of `header` that equals `name`.
pub open spec fn is_first_match(header: Fields, name: Seq<char>, i: int) -> bool {
    &&& 0 <= i < header.len()
    &&& header[i] == name
    &&& forall|j: int| 0 <= j < i ==> #[trigger] header[j] != name
}

/// The position of the first field of `header` that equals `name`, where
/// there is one.
pub open spec fn first_match(header: Fields, name: Seq<char>) -> int {
    choose|i: int| is_first_match(header, name, i)
}

/// Every requested name occurs in `header`.
pub open spec fn all_present(header: Fields, requested: Fields) -> bool {
    forall|j: int| 0 <= j < requested.len() ==> header.contains(#[trigger] requested[j])
}

/// `j` is the position of the first requested name that `header` lacks.
pub open spec fn is_first_missing(header: Fields, requested: Fields, j: int) -> bool {
    &&& 0 <= j < requested.len()
    &&& !header.contains(requested[j])
    &&& forall|i: int| 0 <= i < j ==> header.contains(#[trigger] requested[i])
}

/// The position of the first requested name that `header` lacks, where there
/// is one.
pub open spec fn first_missing(header: Fields, requested: Fields) -> int {
    choose|j: int| is_first_missing(header, requested, j)
}

/// What resolving `requested` against `header` gives: for each name, in the
/// order asked, the position of its first occurrence; or, where a name is
/// absent, the failure that carries the first such name.
pub open spec fn resolution(header: Fields, requested: Fields) -> Result<Seq<int>, Failure> {
    if all_present(header, requested) {
        Ok(Seq::new(requested.len(), |j: int| first_match(header, requested[j])))
    } else {
        Err(Failure::ColumnNotFound(requested[first_missing(header, requested)]))
    }
}

/// The fields of `row` at `indices`, in the order of `indices`; the empty
/// text stands for a position that `row` does not have.
pub open spec fn projection(row: Fields, indices: Seq<int>) -> Fields {
    Seq::new(
        indices.len(),
        |j: int|
            if 0 <= indices[j] < row.len() {
                row[indices[j]]
            } else {
                Seq::<char>::empty()
            },
    )
}

/// What extracting the columns `requested` gives, for a reader that yields
/// `header` and then `outcomes`.
///
/// A header that cannot be tokenised is reported first, then a name that the
/// header lacks, then the earliest data row that cannot be tokenised. Otherwise
/// there is one projected row for each data row, in their order.
pub open spec fn columns_of(header: Outcome, outcomes: Seq<Outcome>, requested: Fields) -> Result<
    Seq<Fields>,
    Failure,
> {
    match header {
        Err(text) => Err(Failure::Csv(text)),
        Ok(head) => match resolution(head, requested) {
            Err(failure) => Err(failure),
            Ok(indices) => if has_failure(outcomes) {
                Err(Failure::Csv(outcomes[first_failure(outcomes)]->Err_0))
            } else {
                Ok(Seq::new(outcomes.len(), |i: int| projection(outcomes[i]->Ok_0, indices)))
            },
        },
    }
}

/// At most one position is the first match, and `first_match` names it.
pub proof fn lemma_first_match_unique(header: Fields, name: Seq<char>, i: int)
    requires
        is_first_match(header, name, i),
    ensures
        header.contains(name),
        first_match(header, name) == i,
{
    let chosen = first_match(header, name);
    assert(is_first_match(header, name, chosen));
    if chosen < i {
        assert(header[chosen] != name);
    }
    if i < chosen {
        assert(header[i] != name);
    }
}

/// At most one position is the first missing name, and `first_missing` names
/// it.
pub proof fn lemma_first_missing_unique(header: Fields, requested: Fields, j: int)
    requires
        is_first_missing(header, requested, j),
    ensures
        !all_present(header, requested),
        first_missing(header, requested) == j,
{
    let chosen = first_missing(header, requested);
    assert(is_first_missing(header, requested, chosen));
    if chosen < j {
        assert(header.contains(requested[chosen]));
    }
    if j < chosen {
        assert(header.contains(requested[j]));
    }
}

/// Returns the position of the first field of `header` that equals `name`.
pub fn find_column(header: &[String], name: &str) -> (position: Option<usize>)
    ensures
        match position {
            Some(i) => is_first_match(texts(header@), name@, i as int),
            None => !texts(header@).contains(name@),
        },
{
    let wanted = name.to_owned();
    let mut i: usize = 0;
    while i < header.len()
        invariant
            i <= header.len(),
            wanted@ == name@,
            forall|j: int| 0 <= j < i ==> #[trigger] texts(header@)[j] != name@,
        decreases header.len() - i,
    {
        if header[i] == wanted {
            return Some(i);
        }
        i = i + 1;
    }
    None
}

/// Resolves each requested name to the position of its first occurrence in
/// `header`, keeping the order and the repetitions of the request. Fails on
/// the first name that `header` lacks, and names it.
pub fn resolve_columns(header: &[String], columns: &[&str]) -> (result: Result<
    Vec<usize>,
    CsvSliceError,
>)
    ensures
        match resolution(texts(header@), names(columns@)) {
            Ok(indices) => result is Ok && positions(result->Ok_0@) == indices,
            Err(failure) => result is Err && result->Err_0@ == failure,
        },
{
    let ghost head = texts(header@);
    let ghost requested = names(columns@);
    let mut indices: Vec<usize> = Vec::new();
    let mut j: usize = 0;
    while j < columns.len()
        invariant
            head == texts(header@),
            requested == names(columns@),
            j <= columns.len(),
            indices@.len() == j,
            forall|k: int| 0 <= k < j ==> head.contains(#[trigger] requested[k]),
            forall|k: int|
                0 <= k < j ==> (#[trigger] indices@[k]) as int == first_match(head, requested[k]),
        decreases columns.len() - j,
    {
        match find_column(header, columns[j]) {
            Some(i) => {
                proof {
                    lemma_first_match_unique(head, requested[j as int], i as int);
                }
                indices.push(i);
            },
            None => {
                proof {
                    lemma_first_missing_unique(head, requested, j as int);
                }
                return Err(CsvSliceError::ColumnNotFound(columns[j].to_owned()));
            },
        }
        j = j + 1;
    }
    proof {
        assert(all_present(head, requested));
        assert(positions(indices@) =~= Seq::new(
            requested.len(),
            |k: int| first_match(head, requested[k]),
        ));
    }
    Ok(indices)
}

/// Builds one output row: the fields of `row` at `indices`, in that order,
/// with an empty string for each position that `row` does not have.
pub fn project_row(row: &[String], indices: &[usize]) -> (projected: Vec<String>)
    ensures
        texts(projected@) == projection(texts(row@), positions(indices@)),
{
    let mut projected: Vec<String> = Vec::new();
    let mut j: usize = 0;
    while j < indices.len()
        invariant
            j <= indices.len(),
            projected@.len() == j,
            forall|k: int|
                0 <= k < j ==> (#[trigger] projected@[k])@ == projection(
                    texts(row@),
                    positions(indices@),
                )[k],
        decreases indices.len() - j,
    {
        let i = indices[j];
        if i < row.len() {
            projected.push(row[i].clone());
        } else {
            projected.push(String::new());
        }
        j = j + 1;
    }
    proof {
        assert(texts(projected@) =~= projection(texts(row@), positions(indices@)));
    }
    projected
}

/// Copies the fields of `record` into strings.
pub fn record_strings(record: &StringRecord) -> (strings: Vec<String>)
    ensures
        texts(strings@) == fields(*record),
{
    let mut strings: Vec<String> = Vec::new();
    let count = record.len();
    let mut i: usize = 0;
    while i < count
        invariant
            count == fields(*record).len(),
            i <= count,
            strings@.len() == i,
            forall|k: int| 0 <= k < i ==> (#[trigger] strings@[k])@ == fields(*record)[k],
        decreases count - i,
    {
        let field = record.get(i).unwrap();
        strings.push(field.to_owned());
        i = i + 1;
    }
    proof {
        assert(texts(strings@) =~= fields(*record));
    }
    strings
}

/// Returns, for every data row of `data` in order, the values of the columns
/// named by `columns`, in the order asked. A name may be asked for more than
/// once. Where the header has a name several times, its first occurrence is
/// meant. No row is read before every name has been found. Where a row is
/// too short to have a column, the value is the empty string.
pub fn extract_columns(data: &[u8], columns: &[&str]) -> (result: Result<
    Vec<Vec<String>>,
    CsvSliceError,
>)
    ensures
        match columns_of(parsed_header(data@), records_after_header(data@), names(columns@)) {
            Ok(rows) => result is Ok && table(result->Ok_0@) == rows,
            Err(failure) => result is Err && result->Err_0@ == failure,
        },
        result is Ok ==> result->Ok_0@.len() == parsed_records(data@).len(),
        same_but_first_text(parsed_records(data@), records_after_header(data@)),
{
    let ghost all = records_after_header(data@);
    let mut reader = open_reader(data, true);
    let header = match read_header(&mut reader) {
        Ok(record) => record_strings(&record),
        Err(error) => {
            return Err(CsvSliceError::Csv(describe(&error)));
        },
    };
    let indices = match resolve_columns(header.as_slice(), columns) {
        Ok(indices) => indices,
        Err(failure) => {
            return Err(failure);
        },
    };
    let ghost chosen = positions(indices@);
    let mut rows: Vec<Vec<String>> = Vec::new();
    proof {
        assert(all.skip(0) == all);
    }
    loop
        invariant
            all == records_after_header(data@),
            same_but_first_text(parsed_records(data@), all),
            chosen == positions(indices@),
            parsed_header(data@) == Ok::<Fields, Seq<char>>(texts(header@)),
            resolution(texts(header@), names(columns@)) == Ok::<Seq<int>, Failure>(chosen),
            rows@.len() <= all.len(),
            pending(reader) == all.skip(rows@.len() as int),
            forall|k: int| 0 <= k < rows@.len() ==> (#[trigger] all[k]) is Ok,
            forall|k: int|
                0 <= k < rows@.len() ==> texts((#[trigger] rows@[k])@) == projection(
                    all[k]->Ok_0,
                    chosen,
                ),
        decreases all.len() - rows@.len(),
    {
        let ghost done = rows@.len() as int;
        let mut record = StringRecord::new();
        match read_record(&mut reader, &mut record) {
            Err(error) => {
                proof {
                    assert(all.skip(done)[0] == all[done]);
                    assert(is_first_failure(all, done));
                    lemma_first_failure_unique(all, done);
                }
                return Err(CsvSliceError::Csv(describe(&error)));
            },
            Ok(false) => {
                proof {
                    assert(!has_failure(all));
                    assert(table(rows@) =~= Seq::new(
                        all.len(),
                        |i: int| projection(all[i]->Ok_0, chosen),
                    ));
                }
                return Ok(rows);
            },
            Ok(true) => {
                proof {
                    assert(all.skip(done)[0] == all[done]);
                    assert(all.skip(done).drop_first() == all.skip(done + 1));
                }
                let row = record_strings(&record);
                rows.push(project_row(row.as_slice(), indices.as_slice()));
            },
        }
    }
}

/// Where some requested name is absent, one of them is the first.
proof fn lemma_first_missing_below(header: Fields, requested: Fields, j: int)
    requires
        0 <= j < requested.len(),
        !header.contains(requested[j]),
    ensures
        exists|m: int| is_first_missing(header, requested, m),
    decreases j,
{
    if exists|i: int| 0 <= i < j && !header.contains(#[trigger] requested[i]) {
        let i = choose|i: int| 0 <= i < j && !header.contains(#[trigger] requested[i]);
        lemma_first_missing_below(header, requested, i);
    } else {
        assert(is_first_missing(header, requested, j));
    }
}

/// One output row for each data row: a successful extraction of columns has
/// as many rows as the input has data rows, whichever columns were asked for,
/// and each row has one value for each name asked.
pub proof fn lemma_one_row_per_record(header: Outcome, outcomes: Seq<Outcome>, requested: Fields)
    ensures
        columns_of(header, outcomes, requested) matches Ok(rows) ==> {
            &&& rows.len() == outcomes.len()
            &&& forall|r: int| 0 <= r < rows.len() ==> (#[trigger] rows[r]).len() == requested.len()
        },
{
}

/// An absent name fails the extraction: where the header can be read and
/// lacks one of the requested names, the result is the column-not-found
/// failure, whatever the data rows hold, and the name it carries is a
/// requested name that the header lacks: the first such in the request.
pub proof fn lemma_absent_name_reported(
    header: Fields,
    outcomes: Seq<Outcome>,
    requested: Fields,
    j: int,
)
    requires
        0 <= j < requested.len(),
        !header.contains(requested[j]),
    ensures
        columns_of(Ok(header), outcomes, requested) matches Err(Failure::ColumnNotFound(name))
            && requested.contains(name) && !header.contains(name) && name
            == requested[first_missing(header, requested)] && first_missing(header, requested)
            <= j,
{
    lemma_first_missing_below(header, requested, j);
    let m = first_missing(header, requested);
    assert(is_first_missing(header, requested, m));
    if j < m {
        assert(header.contains(requested[j]));
    }
}

/// A name asked for twice gives the same value twice: where two requested
/// names are equal, every output row has equal values at their two places.
pub proof fn lemma_repeated_name_repeats_value(
    header: Outcome,
    outcomes: Seq<Outcome>,
    requested: Fields,
    i: int,
    j: int,
)
    requires
        0 <= i < requested.len(),
        0 <= j < requested.len(),
        requested[i] == requested[j],
    ensures
        columns_of(header, outcomes, requested) matches Ok(rows) ==> forall|r: int|
            0 <= r < rows.len() ==> (#[trigger] rows[r])[i] == rows[r][j],
{
}

} // verus!
