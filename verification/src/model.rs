//! The mathematical model shared by both extractions: what a reader yields,
//! and where its first failure lies.

use vstd::prelude::*;

verus! {

/// The fields of one record.
pub type Fields = Seq<Seq<char>>;

/// What a reader yields for one record: its fields, or the text of the
/// failure to tokenise it.
pub type Outcome = Result<Seq<Seq<char>>, Seq<char>>;

/// Some outcome is a failure.
pub open spec fn has_failure(outcomes: Seq<Outcome>) -> bool {
    exists|k: int| 0 <= k < outcomes.len() && (#[trigger] outcomes[k]) is Err
}

/// `k` is the position of the earliest failure among `outcomes`.
pub open spec fn is_first_failure(outcomes: Seq<Outcome>, k: int) -> bool {
    &&& 0 <= k < outcomes.len()
    &&& outcomes[k] is Err
    &&& forall|j: int| 0 <= j < k ==> (#[trigger] outcomes[j]) is Ok
}

/// The position of the earliest failure among `outcomes`, where there is one.
pub open spec fn first_failure(outcomes: Seq<Outcome>) -> int {
    choose|k: int| is_first_failure(outcomes, k)
}

/// `after` holds the outcomes of `before`, place by place, but that a failure
/// at the first place may carry another text.
pub open spec fn same_but_first_text(before: Seq<Outcome>, after: Seq<Outcome>) -> bool {
    &&& after.len() == before.len()
    &&& forall|i: int|
        0 <= i < before.len() ==> ((#[trigger] after[i]) is Ok <==> before[i] is Ok)
    &&& forall|i: int|
        0 <= i < before.len() && (before[i] is Ok || i >= 1) ==> #[trigger] after[i] == before[i]
}

/// The fields of the outcomes from `lo` up to `hi`, which are all records.
pub open spec fn records_between(outcomes: Seq<Outcome>, lo: int, hi: int) -> Seq<Fields> {
    if lo < hi {
        Seq::new((hi - lo) as nat, |i: int| outcomes[lo + i]->Ok_0)
    } else {
        Seq::empty()
    }
}

/// At most one position is the earliest failure, and `first_failure` names it.
pub proof fn lemma_first_failure_unique(outcomes: Seq<Outcome>, k: int)
    requires
        is_first_failure(outcomes, k),
    ensures
        has_failure(outcomes),
        first_failure(outcomes) == k,
{
    let chosen = first_failure(outcomes);
    assert(is_first_failure(outcomes, chosen));
    if chosen < k {
        assert(outcomes[chosen] is Ok);
    }
    if k < chosen {
        assert(outcomes[k] is Ok);
    }
}

/// Where some outcome is a failure, one of them is the earliest.
pub proof fn lemma_first_failure_exists(outcomes: Seq<Outcome>)
    requires
        has_failure(outcomes),
    ensures
        is_first_failure(outcomes, first_failure(outcomes)),
{
    let k = choose|k: int| 0 <= k < outcomes.len() && (#[trigger] outcomes[k]) is Err;
    lemma_earliest_below(outcomes, k);
}

/// Below or at any failing position lies the earliest failure.
proof fn lemma_earliest_below(outcomes: Seq<Outcome>, k: int)
    requires
        0 <= k < outcomes.len(),
        outcomes[k] is Err,
    ensures
        exists|m: int| is_first_failure(outcomes, m),
    decreases k,
{
    if exists|j: int| 0 <= j < k && (#[trigger] outcomes[j]) is Err {
        let j = choose|j: int| 0 <= j < k && (#[trigger] outcomes[j]) is Err;
        lemma_earliest_below(outcomes, j);
    } else {
        assert(is_first_failure(outcomes, k));
    }
}

} // verus!
