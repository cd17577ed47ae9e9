//! Facts about rows of optional slots: which slot is the first free one and
//! how many slots are taken.
use vstd::prelude::*;

verus! {

/// 1 for a taken slot, 0 for a free one.
pub open spec fn taken<T>(x: Option<T>) -> nat {
    if x is Some {
        1
    } else {
        0
    }
}

/// Number of taken slots in a row.
pub open spec fn count_taken<T>(s: Seq<Option<T>>) -> nat
    decreases s.len(),
{
    if s.len() == 0 {
        0
    } else {
        count_taken(s.drop_last()) + taken(s.last())
    }
}

/// Number of taken slots over a row of buckets.
pub open spec fn count_taken_rows(rows: Seq<Seq<Option<u64>>>) -> nat
    decreases rows.len(),
{
    if rows.len() == 0 {
        0
    } else {
        count_taken_rows(rows.drop_last()) + count_taken(rows.last())
    }
}

/// Index of the first free slot at or after `i`, or the row's length when
/// every slot from `i` on is taken.
pub open spec fn first_free_from<T>(s: Seq<Option<T>>, i: int) -> int
    decreases s.len() - i,
{
    if i < 0 || i >= s.len() {
        s.len() as int
    } else if s[i] is None {
        i
    } else {
        first_free_from(s, i + 1)
    }
}

/// Index of the first free slot, or the row's length when the row is full.
pub open spec fn first_free<T>(s: Seq<Option<T>>) -> int {
    first_free_from(s, 0)
}

/// A row with no taken slot.
pub open spec fn all_free<T>(s: Seq<Option<T>>) -> bool {
    forall|i: int| 0 <= i < s.len() ==> #[trigger] s[i] is None
}

pub proof fn lemma_first_free_from<T>(s: Seq<Option<T>>, i: int)
    requires
        0 <= i <= s.len(),
    ensures
        i <= first_free_from(s, i) <= s.len(),
        forall|j: int| i <= j < first_free_from(s, i) ==> #[trigger] s[j] is Some,
        first_free_from(s, i) < s.len() ==> s[first_free_from(s, i)] is None,
    decreases s.len() - i,
{
    if i < s.len() && s[i] is Some {
        lemma_first_free_from(s, i + 1);
    }
}

/// The first free slot, characterised: every slot before it is taken and it
/// is free itself (unless it is the row's length).
pub proof fn lemma_first_free<T>(s: Seq<Option<T>>)
    ensures
        0 <= first_free(s) <= s.len(),
        forall|j: int| 0 <= j < first_free(s) ==> #[trigger] s[j] is Some,
        first_free(s) < s.len() ==> s[first_free(s)] is None,
{
    lemma_first_free_from(s, 0);
}

pub proof fn lemma_count_taken_update<T>(s: Seq<Option<T>>, i: int, v: Option<T>)
    requires
        0 <= i < s.len(),
    ensures
        count_taken(s.update(i, v)) + taken(s[i]) == count_taken(s) + taken(v),
    decreases s.len(),
{
    if i == s.len() - 1 {
        assert(s.update(i, v).drop_last() =~= s.drop_last());
    } else {
        lemma_count_taken_update(s.drop_last(), i, v);
        assert(s.update(i, v).drop_last() =~= s.drop_last().update(i, v));
    }
}

pub proof fn lemma_count_taken_all_free<T>(s: Seq<Option<T>>)
    requires
        all_free(s),
    ensures
        count_taken(s) == 0,
    decreases s.len(),
{
    if s.len() > 0 {
        lemma_count_taken_all_free(s.drop_last());
    }
}

pub proof fn lemma_count_taken_rows_update(rows: Seq<Seq<Option<u64>>>, i: int, row: Seq<Option<u64>>)
    requires
        0 <= i < rows.len(),
    ensures
        count_taken_rows(rows.update(i, row)) + count_taken(rows[i]) == count_taken_rows(rows)
            + count_taken(row),
    decreases rows.len(),
{
    if i == rows.len() - 1 {
        assert(rows.update(i, row).drop_last() =~= rows.drop_last());
    } else {
        lemma_count_taken_rows_update(rows.drop_last(), i, row);
        assert(rows.update(i, row).drop_last() =~= rows.drop_last().update(i, row));
    }
}

pub proof fn lemma_count_taken_rows_all_free(rows: Seq<Seq<Option<u64>>>)
    requires
        forall|i: int| 0 <= i < rows.len() ==> all_free(#[trigger] rows[i]),
    ensures
        count_taken_rows(rows) == 0,
    decreases rows.len(),
{
    if rows.len() > 0 {
        lemma_count_taken_rows_all_free(rows.drop_last());
        lemma_count_taken_all_free(rows.last());
    }
}

} // verus!
