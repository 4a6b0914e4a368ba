//! Trend analysis: sales sorted by date and split into an earlier and a
//! later half, with each item's rows in either half.
use vstd::prelude::*;
use crate::grouping::{KeyGroup, is_grouping, group_by_key};
use crate::master::{ItemMaster, display_name};
use crate::order::{TextAscending, goes_before, stable_order, text_le, permuted, lemma_text_total};
use crate::rows::{DatedItem, skipped_in, count_skipped};

verus! {

/// The purchase date of row `r`.
pub open spec fn date_of(rows: Seq<Option<DatedItem>>, r: int) -> Seq<char> {
    rows[r]->0.purchase_date@
}

/// In a stable sort of the rows by date, row `i` comes before row `j`: its
/// date is earlier, or the dates are equal and `i < j`.
pub open spec fn date_before(rows: Seq<Option<DatedItem>>, i: int, j: int) -> bool {
    text_le(date_of(rows, i), date_of(rows, j)) && (text_le(date_of(rows, j), date_of(rows, i)) ==> i < j)
}

/// `sorted` lists every readable row once, sorted stably by date, earliest first.
pub open spec fn sorted_by_date(rows: Seq<Option<DatedItem>>, sorted: Seq<usize>) -> bool {
    &&& forall|p: int| 0 <= p < sorted.len() ==> (#[trigger] sorted[p]) < rows.len() && rows[sorted[p] as int] is Some
    &&& forall|p: int, q: int| 0 <= p < q < sorted.len() ==> date_before(rows, #[trigger] sorted[p] as int, #[trigger] sorted[q] as int)
    &&& forall|r: usize| r < rows.len() && (#[trigger] rows[r as int]) is Some ==> sorted.contains(r)
}

/// The indices of the readable rows, in increasing order.
fn readable_rows(rows: &Vec<Option<DatedItem>>) -> (v: Vec<usize>)
    ensures
        forall|k: int| 0 <= k < v@.len() ==> (#[trigger] v@[k]) < rows@.len() && rows@[v@[k] as int] is Some,
        forall|k: int, l: int| 0 <= k < l < v@.len() ==> (#[trigger] v@[k]) < (#[trigger] v@[l]),
        forall|r: usize| r < rows@.len() && (#[trigger] rows@[r as int]) is Some ==> v@.contains(r),
{
    let mut v: Vec<usize> = Vec::new();
    let mut r: usize = 0;
    while r < rows.len()
        invariant
            r <= rows@.len(),
            forall|k: int| 0 <= k < v@.len() ==> (#[trigger] v@[k]) < r && rows@[v@[k] as int] is Some,
            forall|k: int, l: int| 0 <= k < l < v@.len() ==> (#[trigger] v@[k]) < (#[trigger] v@[l]),
            forall|r2: usize| r2 < r && (#[trigger] rows@[r2 as int]) is Some ==> v@.contains(r2),
        decreases rows@.len() - r,
    {
        if rows[r].is_some() {
            let ghost before = v@;
            v.push(r);
            proof {
                assert forall|r2: usize| r2 < r + 1 && (#[trigger] rows@[r2 as int]) is Some implies v@.contains(r2) by {
                    if r2 == r {
                        assert(v@[before.len() as int] == r);
                    } else {
                        assert(before.contains(r2));
                        let k = choose|k: int| 0 <= k < before.len() && before[k] == r2;
                        assert(v@[k] == r2);
                    }
                }
            }
        }
        r = r + 1;
    }
    v
}

/// The dates of the rows `v`, as sort keys: the earliest first.
pub open spec fn date_keys(rows: Seq<Option<DatedItem>>, v: Seq<usize>) -> Seq<TextAscending> {
    Seq::new(v.len(), |k: int| TextAscending(rows[v[k] as int]->0.purchase_date))
}

/// Sorts the readable rows stably by date, earliest first.
pub fn sort_by_date(rows: &Vec<Option<DatedItem>>) -> (sorted: Vec<usize>)
    ensures
        sorted_by_date(rows@, sorted@),
{
    let v = readable_rows(rows);
    let mut keys: Vec<TextAscending> = Vec::new();
    let mut k: usize = 0;
    while k < v.len()
        invariant
            k <= v@.len(),
            forall|l: int| 0 <= l < v@.len() ==> (#[trigger] v@[l]) < rows@.len() && rows@[v@[l] as int] is Some,
            keys@ =~= date_keys(rows@, v@).take(k as int),
        decreases v@.len() - k,
    {
        match &rows[v[k]] {
            Some(row) => keys.push(TextAscending(row.purchase_date.clone())),
            None => {
                assert(false);
            },
        }
        k = k + 1;
    }
    assert(keys@ =~= date_keys(rows@, v@));
    let ord = stable_order(&keys);
    let sorted = crate::order::compose_orders(&v, &ord);
    proof {
        let s = sorted@;
        let ks = date_keys(rows@, v@);
        assert forall|p: int| 0 <= p < s.len() implies (#[trigger] s[p]) < rows@.len() && rows@[s[p] as int] is Some by {
            assert(ord@[p] < v@.len());
        }
        assert forall|p: int, q: int| 0 <= p < q < s.len() implies date_before(rows@, #[trigger] s[p] as int, #[trigger] s[q] as int) by {
            assert(goes_before(ks, ord@[p] as int, ord@[q] as int));
            assert(ord@[p] < v@.len() && ord@[q] < v@.len());
            if ord@[q] < ord@[p] {
                assert(v@[ord@[q] as int] < v@[ord@[p] as int]);
            }
            if ord@[p] < ord@[q] {
                assert(v@[ord@[p] as int] < v@[ord@[q] as int]);
            }
        }
        assert forall|r: usize| r < rows@.len() && (#[trigger] rows@[r as int]) is Some implies s.contains(r) by {
            assert(v@.contains(r));
            let k = choose|k: int| 0 <= k < v@.len() && v@[k] == r;
            let ku = k as usize;
            assert(ord@.contains(ku));
            let p = choose|p: int| 0 <= p < ord@.len() && ord@[p] == ku;
            assert(s[p] == r);
        }
    }
    sorted
}

/// The positions among `ps` that are before `mid`, and those that are not.
pub open spec fn positions_before(ps: Seq<usize>, mid: int) -> Seq<usize>
    decreases ps.len(),
{
    if ps.len() == 0 {
        seq![]
    } else if ps.last() < mid {
        positions_before(ps.drop_last(), mid).push(ps.last())
    } else {
        positions_before(ps.drop_last(), mid)
    }
}

/// The positions among `ps` that are at or after `mid`.
pub open spec fn positions_from(ps: Seq<usize>, mid: int) -> Seq<usize>
    decreases ps.len(),
{
    if ps.len() == 0 {
        seq![]
    } else if ps.last() >= mid {
        positions_from(ps.drop_last(), mid).push(ps.last())
    } else {
        positions_from(ps.drop_last(), mid)
    }
}

/// An item's rows in the earlier and in the later half of the sorted rows,
/// each in sorted order.
pub struct TrendItemRows {
    pub item_id: String,
    pub item_name: String,
    pub past_rows: Vec<usize>,
    pub recent_rows: Vec<usize>,
}

/// The split of a sales file by date.
pub struct TrendSplit {
    pub sorted_rows: Vec<usize>,
    pub past_count: usize,
    pub items: Vec<TrendItemRows>,
    pub skipped_rows: usize,
    pub total_rows: usize,
}

/// The item ids of the sorted rows.
pub open spec fn sorted_item_keys(rows: Seq<Option<DatedItem>>, sorted: Seq<usize>) -> Seq<Option<Seq<char>>> {
    Seq::new(sorted.len(), |p: int| Some(rows[sorted[p] as int]->0.item_id@))
}

/// `split` splits `rows`: the rows sorted by date, the first half (rounded
/// down) earlier, and the items in order of first appearance in the sorted
/// rows, given their grouping by item over the sorted positions.
pub open spec fn trend_split_from(
    rows: Seq<Option<DatedItem>>,
    master: Seq<(Seq<char>, Seq<char>)>,
    split: TrendSplit,
    groups: Seq<KeyGroup>,
) -> bool {
    let sorted = split.sorted_rows@;
    &&& sorted_by_date(rows, sorted)
    &&& split.past_count == sorted.len() / 2
    &&& is_grouping(sorted_item_keys(rows, sorted), groups)
    &&& split.items@.len() == groups.len()
    &&& forall|g: int|
        0 <= g < groups.len() ==> {
            &&& (#[trigger] split.items@[g]).item_id@ == groups[g].key@
            &&& split.items@[g].item_name@ == display_name(master, groups[g].key@)
            &&& split.items@[g].past_rows@ == permuted(sorted, positions_before(groups[g].rows@, split.past_count as int))
            &&& split.items@[g].recent_rows@ == permuted(sorted, positions_from(groups[g].rows@, split.past_count as int))
        }
}

/// The rows of `sorted` at the positions `ps` before `mid`, and those at or after it.
fn split_positions(sorted: &Vec<usize>, ps: &Vec<usize>, mid: usize) -> (halves: (Vec<usize>, Vec<usize>))
    requires
        forall|k: int| 0 <= k < ps@.len() ==> #[trigger] ps@[k] < sorted@.len(),
    ensures
        halves.0@ == permuted(sorted@, positions_before(ps@, mid as int)),
        halves.1@ == permuted(sorted@, positions_from(ps@, mid as int)),
{
    let mut past: Vec<usize> = Vec::new();
    let mut recent: Vec<usize> = Vec::new();
    let mut k: usize = 0;
    while k < ps.len()
        invariant
            forall|l: int| 0 <= l < ps@.len() ==> #[trigger] ps@[l] < sorted@.len(),
            k <= ps@.len(),
            past@ =~= permuted(sorted@, positions_before(ps@.take(k as int), mid as int)),
            recent@ =~= permuted(sorted@, positions_from(ps@.take(k as int), mid as int)),
        decreases ps@.len() - k,
    {
        assert(ps@.take(k + 1).drop_last() =~= ps@.take(k as int));
        assert(ps@.take(k + 1).last() == ps@[k as int]);
        let p = ps[k];
        if p < mid {
            past.push(sorted[p]);
        } else {
            recent.push(sorted[p]);
        }
        k = k + 1;
    }
    assert(ps@.take(ps@.len() as int) =~= ps@);
    (past, recent)
}

/// Sorts the readable sales rows by date (earliest first, ties in file
/// order), splits them into an earlier half (the first half, rounded down)
/// and a later half, and lists each item, in order of first appearance in the
/// sorted rows, with its rows in either half.
pub fn trend_split(rows: &Vec<Option<DatedItem>>, master: &ItemMaster) -> (split: TrendSplit)
    ensures
        exists|groups: Seq<KeyGroup>| #[trigger] trend_split_from(rows@, master@, split, groups),
        split.total_rows == rows@.len(),
        split.skipped_rows == skipped_in(rows@),
        forall|p: int, q: int|
            0 <= p < split.past_count <= q < split.sorted_rows@.len() ==> text_le(
                date_of(rows@, #[trigger] split.sorted_rows@[p] as int),
                date_of(rows@, #[trigger] split.sorted_rows@[q] as int),
            ),
{
    let sorted = sort_by_date(rows);
    let mid = sorted.len() / 2;
    let mut keys: Vec<Option<String>> = Vec::new();
    let mut p: usize = 0;
    while p < sorted.len()
        invariant
            sorted_by_date(rows@, sorted@),
            p <= sorted@.len(),
            keys.deep_view() =~= sorted_item_keys(rows@, sorted@).take(p as int),
        decreases sorted@.len() - p,
    {
        let ghost before = keys.deep_view();
        match &rows[sorted[p]] {
            Some(row) => keys.push(Some(row.item_id.clone())),
            None => {
                assert(false);
            },
        }
        assert(keys.deep_view() =~= before.push(sorted_item_keys(rows@, sorted@)[p as int]));
        p = p + 1;
    }
    assert(keys.deep_view() =~= sorted_item_keys(rows@, sorted@));
    let groups = group_by_key(&keys);
    let mut items: Vec<TrendItemRows> = Vec::new();
    let mut g: usize = 0;
    while g < groups.len()
        invariant
            is_grouping(sorted_item_keys(rows@, sorted@), groups@),
            g <= groups@.len(),
            items@.len() == g,
            forall|h: int|
                0 <= h < g ==> {
                    &&& (#[trigger] items@[h]).item_id@ == groups@[h].key@
                    &&& items@[h].item_name@ == display_name(master@, groups@[h].key@)
                    &&& items@[h].past_rows@ == permuted(sorted@, positions_before(groups@[h].rows@, mid as int))
                    &&& items@[h].recent_rows@ == permuted(sorted@, positions_from(groups@[h].rows@, mid as int))
                },
        decreases groups@.len() - g,
    {
        let group = &groups[g];
        assert forall|k: int| 0 <= k < group.rows@.len() implies #[trigger] group.rows@[k] < sorted@.len() by {
            assert(groups@[g as int].rows@[k] < sorted_item_keys(rows@, sorted@).len());
        }
        let (past_rows, recent_rows) = split_positions(&sorted, &group.rows, mid);
        items.push(TrendItemRows {
            item_id: group.key.clone(),
            item_name: master.name_of(&group.key),
            past_rows,
            recent_rows,
        });
        g = g + 1;
    }
    let split = TrendSplit {
        sorted_rows: sorted,
        past_count: mid,
        items,
        skipped_rows: count_skipped(rows),
        total_rows: rows.len(),
    };
    proof {
        assert(trend_split_from(rows@, master@, split, groups@));
    }
    split
}

/// The item of row `r`.
pub open spec fn item_of(rows: Seq<Option<DatedItem>>, r: int) -> Seq<char> {
    rows[r]->0.item_id@
}

/// A position is among those of `ps` before `mid` exactly when it is one of
/// `ps` and below `mid`; it is among those from `mid` on exactly when it is one
/// of `ps` and at least `mid`.
proof fn lemma_positions_split(ps: Seq<usize>, mid: int, x: usize)
    ensures
        positions_before(ps, mid).contains(x) <==> (ps.contains(x) && x < mid),
        positions_from(ps, mid).contains(x) <==> (ps.contains(x) && x >= mid),
    decreases ps.len(),
{
    if ps.len() > 0 {
        let init = ps.drop_last();
        lemma_positions_split(init, mid, x);
        assert(ps =~= init.push(ps.last()));
        if ps.contains(x) && x != ps.last() {
            let k = choose|k: int| 0 <= k < ps.len() && ps[k] == x;
            assert(k < init.len());
            assert(init[k] == x);
        }
        if init.contains(x) {
            let k = choose|k: int| 0 <= k < init.len() && init[k] == x;
            assert(ps[k] == x);
        }
        assert(ps[ps.len() - 1] == ps.last());
        let pb = positions_before(init, mid);
        let pf = positions_from(init, mid);
        if pb.contains(x) {
            let k = choose|k: int| 0 <= k < pb.len() && pb[k] == x;
            assert(pb.push(ps.last())[k] == x);
        }
        if pf.contains(x) {
            let k = choose|k: int| 0 <= k < pf.len() && pf[k] == x;
            assert(pf.push(ps.last())[k] == x);
        }
        if x == ps.last() {
            assert(pb.push(ps.last())[pb.len() as int] == x);
            assert(pf.push(ps.last())[pf.len() as int] == x);
        }
        if pb.push(ps.last()).contains(x) && x != ps.last() {
            let k = choose|k: int| 0 <= k < pb.len() + 1 && pb.push(ps.last())[k] == x;
            assert(k < pb.len());
            assert(pb[k] == x);
        }
        if pf.push(ps.last()).contains(x) && x != ps.last() {
            let k = choose|k: int| 0 <= k < pf.len() + 1 && pf.push(ps.last())[k] == x;
            assert(k < pf.len());
            assert(pf[k] == x);
        }
    }
}

/// Positions taken in increasing order stay in increasing order when split.
proof fn lemma_positions_increasing(ps: Seq<usize>, mid: int)
    requires
        forall|k: int, l: int| 0 <= k < l < ps.len() ==> (#[trigger] ps[k]) < (#[trigger] ps[l]),
    ensures
        forall|k: int, l: int|
            0 <= k < l < positions_before(ps, mid).len() ==> (#[trigger] positions_before(ps, mid)[k])
                < (#[trigger] positions_before(ps, mid)[l]),
        forall|k: int, l: int|
            0 <= k < l < positions_from(ps, mid).len() ==> (#[trigger] positions_from(ps, mid)[k])
                < (#[trigger] positions_from(ps, mid)[l]),
    decreases ps.len(),
{
    if ps.len() > 0 {
        let init = ps.drop_last();
        let last = ps.last();
        assert forall|k: int, l: int| 0 <= k < l < init.len() implies (#[trigger] init[k]) < (#[trigger] init[l]) by {
            assert(init[k] == ps[k] && init[l] == ps[l]);
        }
        lemma_positions_increasing(init, mid);
        let pb = positions_before(init, mid);
        let pf = positions_from(init, mid);
        assert forall|k: int| 0 <= k < pb.len() implies #[trigger] pb[k] < last by {
            assert(pb.contains(pb[k]));
            lemma_positions_split(init, mid, pb[k]);
            let j = choose|j: int| 0 <= j < init.len() && init[j] == pb[k];
            assert(ps[j] == init[j]);
            assert(ps[ps.len() - 1] == last);
        }
        assert forall|k: int| 0 <= k < pf.len() implies #[trigger] pf[k] < last by {
            assert(pf.contains(pf[k]));
            lemma_positions_split(init, mid, pf[k]);
            let j = choose|j: int| 0 <= j < init.len() && init[j] == pf[k];
            assert(ps[j] == init[j]);
            assert(ps[ps.len() - 1] == last);
        }
        if last < mid {
            let all = pb.push(last);
            assert forall|k: int, l: int| 0 <= k < l < all.len() implies (#[trigger] all[k]) < (#[trigger] all[l]) by {
                if l < pb.len() {
                    assert(all[k] == pb[k] && all[l] == pb[l]);
                } else {
                    assert(all[k] == pb[k]);
                }
            }
        } else {
            let all = pf.push(last);
            assert forall|k: int, l: int| 0 <= k < l < all.len() implies (#[trigger] all[k]) < (#[trigger] all[l]) by {
                if l < pf.len() {
                    assert(all[k] == pf[k] && all[l] == pf[l]);
                } else {
                    assert(all[k] == pf[k]);
                }
            }
        }
    }
}

/// In a trend split, an item's earlier rows are exactly its rows among the
/// first `past_count` sorted rows, and its later rows exactly its rows among
/// the sorted rows from `past_count` on.
pub proof fn lemma_trend_halves(
    rows: Seq<Option<DatedItem>>,
    master: Seq<(Seq<char>, Seq<char>)>,
    split: TrendSplit,
    groups: Seq<KeyGroup>,
    g: int,
)
    requires
        trend_split_from(rows, master, split, groups),
        0 <= g < split.items@.len(),
    ensures
        forall|p: int|
            0 <= p < split.past_count && item_of(rows, #[trigger] split.sorted_rows@[p] as int)
                == split.items@[g].item_id@ ==> split.items@[g].past_rows@.contains(split.sorted_rows@[p]),
        forall|p: int|
            split.past_count <= p && p < split.sorted_rows@.len() && item_of(rows, #[trigger] split.sorted_rows@[p] as int)
                == split.items@[g].item_id@ ==> split.items@[g].recent_rows@.contains(split.sorted_rows@[p]),
        forall|k: int|
            0 <= k < split.items@[g].past_rows@.len() ==> {
                &&& item_of(rows, #[trigger] split.items@[g].past_rows@[k] as int) == split.items@[g].item_id@
                &&& split.sorted_rows@.take(split.past_count as int).contains(split.items@[g].past_rows@[k])
            },
        forall|k: int|
            0 <= k < split.items@[g].recent_rows@.len() ==> {
                &&& item_of(rows, #[trigger] split.items@[g].recent_rows@[k] as int) == split.items@[g].item_id@
                &&& split.sorted_rows@.skip(split.past_count as int).contains(split.items@[g].recent_rows@[k])
            },
        forall|k: int, l: int|
            0 <= k < l < split.items@[g].past_rows@.len() ==> date_before(
                rows,
                #[trigger] split.items@[g].past_rows@[k] as int,
                #[trigger] split.items@[g].past_rows@[l] as int,
            ),
        forall|k: int, l: int|
            0 <= k < l < split.items@[g].recent_rows@.len() ==> date_before(
                rows,
                #[trigger] split.items@[g].recent_rows@[k] as int,
                #[trigger] split.items@[g].recent_rows@[l] as int,
            ),
        split.items@[g].past_rows@.no_duplicates(),
        split.items@[g].recent_rows@.no_duplicates(),
{
    let sorted = split.sorted_rows@;
    let keys = sorted_item_keys(rows, sorted);
    let mid = split.past_count as int;
    let ps = groups[g].rows@;
    let item = split.items@[g];
    assert(item.item_id@ == groups[g].key@);
    let pb = positions_before(ps, mid);
    let pf = positions_from(ps, mid);
    assert(item.past_rows@ == permuted(sorted, pb));
    assert(item.recent_rows@ == permuted(sorted, pf));
    assert forall|p: int|
        0 <= p < split.past_count && item_of(rows, #[trigger] sorted[p] as int) == item.item_id@
            implies item.past_rows@.contains(sorted[p]) by {
        let r = p as usize;
        assert(keys[r as int] == Some(groups[g].key@));
        assert(groups[g].rows@.contains(r));
        lemma_positions_split(ps, mid, r);
        let k = choose|k: int| 0 <= k < pb.len() && pb[k] == r;
        assert(item.past_rows@[k] == sorted[p]);
    }
    assert forall|p: int|
        split.past_count <= p && p < sorted.len() && item_of(rows, #[trigger] sorted[p] as int) == item.item_id@
            implies item.recent_rows@.contains(sorted[p]) by {
        assert(sorted.len() == split.sorted_rows.len());
        let r = p as usize;
        assert(keys[r as int] == Some(groups[g].key@));
        assert(groups[g].rows@.contains(r));
        lemma_positions_split(ps, mid, r);
        let k = choose|k: int| 0 <= k < pf.len() && pf[k] == r;
        assert(item.recent_rows@[k] == sorted[p]);
    }
    assert(split.past_count <= sorted.len());
    assert forall|k: int| 0 <= k < item.past_rows@.len() implies {
        &&& item_of(rows, #[trigger] item.past_rows@[k] as int) == item.item_id@
        &&& sorted.take(mid).contains(item.past_rows@[k])
    } by {
        let x = pb[k];
        assert(pb.contains(x));
        lemma_positions_split(ps, mid, x);
        let j = choose|j: int| 0 <= j < ps.len() && ps[j] == x;
        assert(groups[g].rows@[j] == x);
        assert(x < keys.len());
        assert(keys[x as int] == Some(groups[g].key@));
        assert(sorted[x as int] == item.past_rows@[k]);
        assert(sorted.take(mid)[x as int] == sorted[x as int]);
    }
    assert forall|k: int| 0 <= k < item.recent_rows@.len() implies {
        &&& item_of(rows, #[trigger] item.recent_rows@[k] as int) == item.item_id@
        &&& sorted.skip(mid).contains(item.recent_rows@[k])
    } by {
        let x = pf[k];
        assert(pf.contains(x));
        lemma_positions_split(ps, mid, x);
        let j = choose|j: int| 0 <= j < ps.len() && ps[j] == x;
        assert(groups[g].rows@[j] == x);
        assert(x < keys.len());
        assert(keys[x as int] == Some(groups[g].key@));
        assert(sorted[x as int] == item.recent_rows@[k]);
        assert(sorted.skip(mid)[x - mid] == sorted[x as int]);
    }
    lemma_positions_increasing(ps, mid);
    assert forall|k: int, l: int| 0 <= k < l < item.past_rows@.len() implies date_before(
        rows,
        #[trigger] item.past_rows@[k] as int,
        #[trigger] item.past_rows@[l] as int,
    ) by {
        assert(pb.contains(pb[k]) && pb.contains(pb[l]));
        lemma_positions_split(ps, mid, pb[k]);
        lemma_positions_split(ps, mid, pb[l]);
        let jk = choose|j: int| 0 <= j < ps.len() && ps[j] == pb[k];
        let jl = choose|j: int| 0 <= j < ps.len() && ps[j] == pb[l];
        assert(groups[g].rows@[jk] < keys.len() && groups[g].rows@[jl] < keys.len());
        assert(sorted[pb[k] as int] == item.past_rows@[k]);
        assert(sorted[pb[l] as int] == item.past_rows@[l]);
    }
    assert forall|k: int, l: int| 0 <= k < l < item.recent_rows@.len() implies date_before(
        rows,
        #[trigger] item.recent_rows@[k] as int,
        #[trigger] item.recent_rows@[l] as int,
    ) by {
        assert(pf.contains(pf[k]) && pf.contains(pf[l]));
        lemma_positions_split(ps, mid, pf[k]);
        lemma_positions_split(ps, mid, pf[l]);
        let jk = choose|j: int| 0 <= j < ps.len() && ps[j] == pf[k];
        let jl = choose|j: int| 0 <= j < ps.len() && ps[j] == pf[l];
        assert(groups[g].rows@[jk] < keys.len() && groups[g].rows@[jl] < keys.len());
        assert(sorted[pf[k] as int] == item.recent_rows@[k]);
        assert(sorted[pf[l] as int] == item.recent_rows@[l]);
    }
    assert forall|k: int, l: int| 0 <= k < item.past_rows@.len() && 0 <= l < item.past_rows@.len() && k != l
        implies item.past_rows@[k] != item.past_rows@[l] by {
        let d = date_of(rows, item.past_rows@[k] as int);
        lemma_text_total(d, d);
        if k < l {
            assert(date_before(rows, item.past_rows@[k] as int, item.past_rows@[l] as int));
        } else {
            assert(date_before(rows, item.past_rows@[l] as int, item.past_rows@[k] as int));
        }
    }
    assert forall|k: int, l: int| 0 <= k < item.recent_rows@.len() && 0 <= l < item.recent_rows@.len() && k != l
        implies item.recent_rows@[k] != item.recent_rows@[l] by {
        let d = date_of(rows, item.recent_rows@[k] as int);
        lemma_text_total(d, d);
        if k < l {
            assert(date_before(rows, item.recent_rows@[k] as int, item.recent_rows@[l] as int));
        } else {
            assert(date_before(rows, item.recent_rows@[l] as int, item.recent_rows@[k] as int));
        }
    }
}

} // verus!
