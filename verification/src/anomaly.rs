//! Anomaly analysis: the purchases flagged as unusual for their customer,
//! latest first.
use vstd::prelude::*;
use crate::grouping::{KeyGroup, is_grouping, group_by_key};
use crate::order::{TextDescending, goes_before, stable_order, text_le};
use crate::rfm::customer_keys;
use crate::rows::{CustomerPurchase, skipped_in, count_skipped};

verus! {

/// The purchases of a file grouped by customer, with the counts of its rows.
pub struct PurchaseGroups {
    pub customers: Vec<KeyGroup>,
    pub skipped_rows: usize,
    pub total_rows: usize,
}

/// Groups the readable purchases by customer, in order of first appearance;
/// each customer lists its rows in increasing order.
pub fn anomaly_customers(rows: &Vec<Option<CustomerPurchase>>) -> (groups: PurchaseGroups)
    ensures
        is_grouping(customer_keys(rows@), groups.customers@),
        groups.total_rows == rows@.len(),
        groups.skipped_rows == skipped_in(rows@),
{
    let mut keys: Vec<Option<String>> = Vec::new();
    let mut i: usize = 0;
    while i < rows.len()
        invariant
            i <= rows@.len(),
            keys.deep_view() =~= customer_keys(rows@).take(i as int),
        decreases rows@.len() - i,
    {
        let ghost before = keys.deep_view();
        match &rows[i] {
            Some(row) => keys.push(Some(row.customer_id.clone())),
            None => keys.push(None),
        }
        assert(keys.deep_view() =~= before.push(customer_keys(rows@)[i as int]));
        i = i + 1;
    }
    assert(keys.deep_view() =~= customer_keys(rows@));
    let customers = group_by_key(&keys);
    PurchaseGroups { customers, skipped_rows: count_skipped(rows), total_rows: rows.len() }
}

/// Row `r` is readable and flagged.
pub open spec fn is_flagged(rows: Seq<Option<CustomerPurchase>>, flags: Seq<bool>, r: int) -> bool {
    rows[r] is Some && flags[r]
}

/// The purchase date of row `r`.
pub open spec fn purchase_date_of(rows: Seq<Option<CustomerPurchase>>, r: int) -> Seq<char> {
    rows[r]->0.purchase_date@
}

/// In a stable sort by date, latest first, row `i` comes before row `j`.
pub open spec fn later_first(rows: Seq<Option<CustomerPurchase>>, i: int, j: int) -> bool {
    text_le(purchase_date_of(rows, j), purchase_date_of(rows, i))
        && (text_le(purchase_date_of(rows, i), purchase_date_of(rows, j)) ==> i < j)
}

/// `out` lists every flagged readable row once, latest date first, rows of
/// equal date in file order.
pub open spec fn flagged_latest_first(rows: Seq<Option<CustomerPurchase>>, flags: Seq<bool>, out: Seq<usize>) -> bool {
    &&& forall|p: int| 0 <= p < out.len() ==> (#[trigger] out[p]) < rows.len() && is_flagged(rows, flags, out[p] as int)
    &&& forall|p: int, q: int| 0 <= p < q < out.len() ==> later_first(rows, #[trigger] out[p] as int, #[trigger] out[q] as int)
    &&& forall|r: usize| r < rows.len() && #[trigger] is_flagged(rows, flags, r as int) ==> out.contains(r)
}

/// The dates of the rows `v`, as sort keys: the latest first.
pub open spec fn latest_keys(rows: Seq<Option<CustomerPurchase>>, v: Seq<usize>) -> Seq<TextDescending> {
    Seq::new(v.len(), |k: int| TextDescending(rows[v[k] as int]->0.purchase_date))
}

/// Lists the flagged purchases (`flags[r]` for row `r`), latest first, rows of
/// equal date in file order.
pub fn anomalies_latest_first(rows: &Vec<Option<CustomerPurchase>>, flags: &Vec<bool>) -> (out: Vec<usize>)
    requires
        flags@.len() == rows@.len(),
    ensures
        flagged_latest_first(rows@, flags@, out@),
{
    let mut v: Vec<usize> = Vec::new();
    let mut r: usize = 0;
    while r < rows.len()
        invariant
            flags@.len() == rows@.len(),
            r <= rows@.len(),
            forall|k: int| 0 <= k < v@.len() ==> (#[trigger] v@[k]) < r && is_flagged(rows@, flags@, v@[k] as int),
            forall|k: int, l: int| 0 <= k < l < v@.len() ==> (#[trigger] v@[k]) < (#[trigger] v@[l]),
            forall|r2: usize| r2 < r && #[trigger] is_flagged(rows@, flags@, r2 as int) ==> v@.contains(r2),
        decreases rows@.len() - r,
    {
        if rows[r].is_some() && flags[r] {
            let ghost before = v@;
            v.push(r);
            proof {
                assert forall|r2: usize| r2 < r + 1 && #[trigger] is_flagged(rows@, flags@, r2 as int) implies v@.contains(r2) by {
                    if r2 == r {
                        assert(v@[before.len() as int] == r);
                    } else {
                        assert(before.contains(r2));
                        let k = choose|k: int| 0 <= k < before.len() && before[k] == r2;
                        assert(v@[k] == r2);
                    }
                }
            }
        }
        r = r + 1;
    }
    let mut keys: Vec<TextDescending> = Vec::new();
    let mut k: usize = 0;
    while k < v.len()
        invariant
            k <= v@.len(),
            forall|l: int| 0 <= l < v@.len() ==> (#[trigger] v@[l]) < rows@.len() && is_flagged(rows@, flags@, v@[l] as int),
            keys@ =~= latest_keys(rows@, v@).take(k as int),
        decreases v@.len() - k,
    {
        match &rows[v[k]] {
            Some(row) => keys.push(TextDescending(row.purchase_date.clone())),
            None => {
                assert(false);
            },
        }
        k = k + 1;
    }
    assert(keys@ =~= latest_keys(rows@, v@));
    let ord = stable_order(&keys);
    let out = crate::order::compose_orders(&v, &ord);
    proof {
        let s = out@;
        let ks = latest_keys(rows@, v@);
        assert forall|p: int| 0 <= p < s.len() implies (#[trigger] s[p]) < rows@.len() && is_flagged(rows@, flags@, s[p] as int) by {
            assert(ord@[p] < v@.len());
        }
        assert forall|p: int, q: int| 0 <= p < q < s.len() implies later_first(rows@, #[trigger] s[p] as int, #[trigger] s[q] as int) by {
            assert(goes_before(ks, ord@[p] as int, ord@[q] as int));
            assert(ord@[p] < v@.len() && ord@[q] < v@.len());
            if ord@[q] < ord@[p] {
                assert(v@[ord@[q] as int] < v@[ord@[p] as int]);
            }
            if ord@[p] < ord@[q] {
                assert(v@[ord@[p] as int] < v@[ord@[q] as int]);
            }
        }
        assert forall|r: usize| r < rows@.len() && #[trigger] is_flagged(rows@, flags@, r as int) implies s.contains(r) by {
            assert(v@.contains(r));
            let k = choose|k: int| 0 <= k < v@.len() && v@[k] == r;
            let ku = k as usize;
            assert(ord@.contains(ku));
            let p = choose|p: int| 0 <= p < ord@.len() && ord@[p] == ku;
            assert(s[p] == r);
        }
    }
    out
}

} // verus!
