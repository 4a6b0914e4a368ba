//! The rows that the analyses read, and the count of rows that could not be read.
use vstd::prelude::*;

verus! {

/// A line of a sales file: a transaction and one item bought in it.
pub struct SaleLine {
    pub transaction_id: String,
    pub item_id: String,
}

/// A purchase of a customer on a date (its amount stays with the caller).
pub struct CustomerPurchase {
    pub customer_id: String,
    pub purchase_date: String,
}

/// A sale of an item on a date (its amount stays with the caller).
pub struct DatedItem {
    pub purchase_date: String,
    pub item_id: String,
}

/// A customer's profile.
pub struct CustomerProfile {
    pub customer_id: String,
    pub age: u8,
    pub region: String,
    pub industry: String,
}

/// The number of rows that could not be read (`None`).
pub open spec fn skipped_in<T>(rows: Seq<Option<T>>) -> nat
    decreases rows.len(),
{
    if rows.len() == 0 {
        0
    } else {
        skipped_in(rows.drop_last()) + if rows.last() is None {
            1nat
        } else {
            0nat
        }
    }
}

pub proof fn lemma_skipped_bounded<T>(rows: Seq<Option<T>>)
    ensures
        skipped_in(rows) <= rows.len(),
    decreases rows.len(),
{
    if rows.len() > 0 {
        lemma_skipped_bounded(rows.drop_last());
    }
}

/// Counts the rows that could not be read.
pub fn count_skipped<T>(rows: &Vec<Option<T>>) -> (n: usize)
    ensures
        n == skipped_in(rows@),
        n <= rows@.len(),
{
    let mut n: usize = 0;
    let mut i: usize = 0;
    while i < rows.len()
        invariant
            i <= rows@.len(),
            n == skipped_in(rows@.take(i as int)),
            n <= i,
        decreases rows@.len() - i,
    {
        assert(rows@.take(i + 1).drop_last() =~= rows@.take(i as int));
        if rows[i].is_none() {
            n = n + 1;
        }
        i = i + 1;
    }
    assert(rows@.take(rows@.len() as int) =~= rows@);
    n
}

} // verus!
