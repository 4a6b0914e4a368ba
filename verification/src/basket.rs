//! Basket analysis: which items are bought together, and the strongest
//! "customers who buy A also buy B" rules.
use vstd::prelude::*;
use crate::grouping::{KeyGroup, is_grouping, group_by_key};
use crate::master::{ItemMaster, display_name};
use crate::order::{text_le, string_le, lemma_text_total, lemma_text_antisym};
use crate::order::{Ranking, RatioHighFirst, is_stable_order, goes_before, stable_order};
use crate::rows::{SaleLine, skipped_in, count_skipped};

verus! {

// ---------------------------------------------------------------------------
// Baskets
// ---------------------------------------------------------------------------

/// The items bought in one transaction, each listed once.
pub struct Basket {
    pub transaction_id: String,
    pub items: Vec<String>,
}

/// The transaction ids of the rows, `None` for rows that could not be read.
pub open spec fn transaction_keys(rows: Seq<Option<SaleLine>>) -> Seq<Option<Seq<char>>> {
    Seq::new(
        rows.len(),
        |r: int|
            match rows[r] {
                Some(line) => Some(line.transaction_id@),
                None => None,
            },
    )
}

/// Some row records that `item` was bought in transaction `tid`.
pub open spec fn bought_in(rows: Seq<Option<SaleLine>>, tid: Seq<char>, item: Seq<char>) -> bool {
    exists|r: int|
        0 <= r < rows.len() && #[trigger] rows[r] is Some && rows[r]->0.transaction_id@ == tid
            && rows[r]->0.item_id@ == item
}

/// Some row belongs to transaction `tid`.
pub open spec fn has_transaction(rows: Seq<Option<SaleLine>>, tid: Seq<char>) -> bool {
    exists|r: int| 0 <= r < rows.len() && #[trigger] rows[r] is Some && rows[r]->0.transaction_id@ == tid
}

/// The item lists of the baskets.
pub open spec fn item_lists(baskets: Seq<Basket>) -> Seq<Seq<Seq<char>>> {
    Seq::new(baskets.len(), |b: int| baskets[b].items.deep_view())
}

/// `baskets` are the transactions of `rows`: one basket per transaction id,
/// holding each item bought in it once.
pub open spec fn baskets_of(rows: Seq<Option<SaleLine>>, baskets: Seq<Basket>) -> bool {
    &&& forall|b: int, c: int|
        0 <= b < c < baskets.len() ==> (#[trigger] baskets[b]).transaction_id@
            != (#[trigger] baskets[c]).transaction_id@
    &&& forall|tid: Seq<char>| #[trigger] has_transaction(rows, tid) ==> exists|b: int|
        0 <= b < baskets.len() && (#[trigger] baskets[b]).transaction_id@ == tid
    &&& forall|b: int| 0 <= b < baskets.len() ==> has_transaction(rows, (#[trigger] baskets[b]).transaction_id@)
    &&& forall|b: int| 0 <= b < baskets.len() ==> (#[trigger] baskets[b]).items.deep_view().no_duplicates()
    &&& forall|b: int, x: Seq<char>|
        0 <= b < baskets.len() ==> (#[trigger] baskets[b].items.deep_view().contains(x) <==> bought_in(
            rows,
            baskets[b].transaction_id@,
            x,
        ))
}

/// Whether `x` is one of `items`.
pub fn list_contains(items: &Vec<String>, x: &String) -> (b: bool)
    ensures
        b == items.deep_view().contains(x@),
{
    let mut i: usize = 0;
    while i < items.len()
        invariant
            i <= items@.len(),
            forall|j: int| 0 <= j < i ==> items.deep_view()[j] != x@,
        decreases items@.len() - i,
    {
        if items[i] == *x {
            assert(items.deep_view()[i as int] == x@);
            return true;
        }
        i = i + 1;
    }
    false
}

/// The transaction id of every row, `None` for rows that could not be read.
fn transaction_ids(rows: &Vec<Option<SaleLine>>) -> (keys: Vec<Option<String>>)
    ensures
        keys.deep_view() == transaction_keys(rows@),
{
    let mut keys: Vec<Option<String>> = Vec::new();
    let mut i: usize = 0;
    while i < rows.len()
        invariant
            i <= rows@.len(),
            keys.deep_view() =~= transaction_keys(rows@).take(i as int),
        decreases rows@.len() - i,
    {
        let ghost before = keys.deep_view();
        match &rows[i] {
            Some(line) => keys.push(Some(line.transaction_id.clone())),
            None => keys.push(None),
        }
        assert(keys.deep_view() =~= before.push(transaction_keys(rows@)[i as int]));
        assert(transaction_keys(rows@).take(i + 1) =~= transaction_keys(rows@).take(i as int).push(
            transaction_keys(rows@)[i as int],
        ));
        i = i + 1;
    }
    keys
}

/// The distinct items of the rows listed in `group`, in order of first appearance.
fn basket_items(rows: &Vec<Option<SaleLine>>, group: &KeyGroup, ghost_keys: Ghost<Seq<Option<Seq<char>>>>) -> (items: Vec<String>)
    requires
        ghost_keys@ == transaction_keys(rows@),
        forall|p: int| 0 <= p < group.rows@.len() ==> {
            &&& (#[trigger] group.rows@[p]) < rows@.len()
            &&& ghost_keys@[group.rows@[p] as int] == Some(group.key@)
        },
    ensures
        items.deep_view().no_duplicates(),
        forall|x: Seq<char>| #[trigger] items.deep_view().contains(x) <==> exists|p: int|
            0 <= p < group.rows@.len() && rows@[#[trigger] group.rows@[p] as int]->0.item_id@ == x,
{
    let mut items: Vec<String> = Vec::new();
    let mut p: usize = 0;
    while p < group.rows.len()
        invariant
            ghost_keys@ == transaction_keys(rows@),
            forall|q: int| 0 <= q < group.rows@.len() ==> {
                &&& (#[trigger] group.rows@[q]) < rows@.len()
                &&& ghost_keys@[group.rows@[q] as int] == Some(group.key@)
            },
            p <= group.rows@.len(),
            items.deep_view().no_duplicates(),
            forall|x: Seq<char>| #[trigger] items.deep_view().contains(x) <==> exists|q: int|
                0 <= q < p && rows@[#[trigger] group.rows@[q] as int]->0.item_id@ == x,
        decreases group.rows@.len() - p,
    {
        let r = group.rows[p];
        assert(ghost_keys@[r as int] == Some(group.key@));
        match &rows[r] {
            Some(line) => {
                let ghost old_items = items.deep_view();
                let ghost item = line.item_id@;
                assert(rows@[group.rows@[p as int] as int]->0.item_id@ == item);
                if !list_contains(&items, &line.item_id) {
                    items.push(line.item_id.clone());
                    assert(items.deep_view() =~= old_items.push(item));
                    assert(items.deep_view()[old_items.len() as int] == item);
                } else {
                    assert(items.deep_view() == old_items);
                }
                assert(items.deep_view().contains(item));
                assert forall|x: Seq<char>| #[trigger] items.deep_view().contains(x) <==> exists|q: int|
                    0 <= q < p + 1 && rows@[#[trigger] group.rows@[q] as int]->0.item_id@ == x by {
                    if items.deep_view().contains(x) {
                        if x == item {
                            assert(rows@[group.rows@[p as int] as int]->0.item_id@ == x);
                        } else {
                            let k = choose|k: int| 0 <= k < items.deep_view().len() && items.deep_view()[k] == x;
                            assert(k < old_items.len());
                            assert(old_items[k] == x);
                            assert(old_items.contains(x));
                        }
                    }
                    if exists|q: int| 0 <= q < p + 1 && rows@[#[trigger] group.rows@[q] as int]->0.item_id@ == x {
                        let q = choose|q: int| 0 <= q < p + 1 && rows@[#[trigger] group.rows@[q] as int]->0.item_id@ == x;
                        if q < p {
                            assert(old_items.contains(x));
                            let k = choose|k: int| 0 <= k < old_items.len() && old_items[k] == x;
                            assert(items.deep_view()[k] == x);
                        } else {
                            assert(x == item);
                        }
                    }
                }
            },
            None => {
                assert(false);
            },
        }
        p = p + 1;
    }
    items
}

/// Collects the baskets of the sales rows.
pub fn collect_baskets(rows: &Vec<Option<SaleLine>>) -> (baskets: Vec<Basket>)
    ensures
        baskets_of(rows@, baskets@),
{
    let n_rows = rows.len();
    let keys = transaction_ids(rows);
    let ghost ks = keys.deep_view();
    let groups = group_by_key(&keys);
    let mut baskets: Vec<Basket> = Vec::new();
    let mut g: usize = 0;
    while g < groups.len()
        invariant
            ks == transaction_keys(rows@),
            n_rows == rows@.len(),
            is_grouping(ks, groups@),
            g <= groups@.len(),
            baskets@.len() == g,
            forall|b: int| 0 <= b < g ==> (#[trigger] baskets@[b]).transaction_id@ == groups@[b].key@,
            forall|b: int| 0 <= b < g ==> has_transaction(rows@, (#[trigger] baskets@[b]).transaction_id@),
            forall|b: int| 0 <= b < g ==> (#[trigger] baskets@[b]).items.deep_view().no_duplicates(),
            forall|b: int, x: Seq<char>|
                0 <= b < g ==> (#[trigger] baskets@[b].items.deep_view().contains(x) <==> bought_in(
                    rows@,
                    baskets@[b].transaction_id@,
                    x,
                )),
        decreases groups@.len() - g,
    {
        let group = &groups[g];
        assert forall|p: int| 0 <= p < group.rows@.len() implies {
            &&& (#[trigger] group.rows@[p]) < rows@.len()
            &&& ks[group.rows@[p] as int] == Some(group.key@)
        } by {
            assert(groups@[g as int].rows@[p] < rows@.len());
        }
        let items = basket_items(rows, group, Ghost(ks));
        let ghost tid = group.key@;
        assert forall|x: Seq<char>| items.deep_view().contains(x) <==> bought_in(rows@, tid, x) by {
            if items.deep_view().contains(x) {
                let p = choose|p: int|
                    0 <= p < group.rows@.len() && rows@[#[trigger] group.rows@[p] as int]->0.item_id@ == x;
                let r = group.rows@[p] as int;
                assert(ks[r] == Some(tid));
                assert(rows@[r] is Some);
            }
            if bought_in(rows@, tid, x) {
                let r = choose|r: int|
                    0 <= r < rows@.len() && #[trigger] rows@[r] is Some && rows@[r]->0.transaction_id@ == tid
                        && rows@[r]->0.item_id@ == x;
                let ru = r as usize;
                assert(ks[ru as int] == Some(groups@[g as int].key@));
                assert(groups@[g as int].rows@.contains(ru));
                let p = choose|p: int| 0 <= p < group.rows@.len() && group.rows@[p] == ru;
                assert(rows@[group.rows@[p] as int]->0.item_id@ == x);
            }
        }
        proof {
            let r0 = group.rows@[0] as int;
            assert(ks[r0] == Some(tid));
            assert(rows@[r0] is Some);
            assert(has_transaction(rows@, tid));
        }
        baskets.push(Basket { transaction_id: group.key.clone(), items });
        g = g + 1;
    }
    proof {
        let bs = baskets@;
        assert forall|tid: Seq<char>| #[trigger] has_transaction(rows@, tid) implies exists|b: int|
            0 <= b < bs.len() && (#[trigger] bs[b]).transaction_id@ == tid by {
            let r = choose|r: int| 0 <= r < rows@.len() && #[trigger] rows@[r] is Some && rows@[r]->0.transaction_id@ == tid;
            assert(ks[r] is Some);
            let h = choose|h: int| 0 <= h < groups@.len() && Some((#[trigger] groups@[h]).key@) == ks[r];
            assert(bs[h].transaction_id@ == tid);
        }
        assert forall|b: int, c: int| 0 <= b < c < bs.len() implies (#[trigger] bs[b]).transaction_id@
            != (#[trigger] bs[c]).transaction_id@ by {
            assert(groups@[b].key@ != groups@[c].key@);
        }
    }
    baskets
}

// ---------------------------------------------------------------------------
// Item and pair counts
// ---------------------------------------------------------------------------

/// The number of baskets that hold `x`.
pub open spec fn count_with(lists: Seq<Seq<Seq<char>>>, x: Seq<char>) -> nat
    decreases lists.len(),
{
    if lists.len() == 0 {
        0
    } else {
        count_with(lists.drop_last(), x) + if lists.last().contains(x) {
            1nat
        } else {
            0nat
        }
    }
}

/// The number of baskets that hold both `x` and `y`.
pub open spec fn count_with_both(lists: Seq<Seq<Seq<char>>>, x: Seq<char>, y: Seq<char>) -> nat
    decreases lists.len(),
{
    if lists.len() == 0 {
        0
    } else {
        count_with_both(lists.drop_last(), x, y) + if lists.last().contains(x) && lists.last().contains(y) {
            1nat
        } else {
            0nat
        }
    }
}

/// A pair is bought together no more often than either of its items is bought.
pub proof fn lemma_support_within_counts(lists: Seq<Seq<Seq<char>>>, x: Seq<char>, y: Seq<char>)
    ensures
        count_with_both(lists, x, y) <= count_with(lists, x),
        count_with_both(lists, x, y) <= count_with(lists, y),
        count_with_both(lists, x, y) == count_with_both(lists, y, x),
        count_with(lists, x) <= lists.len(),
    decreases lists.len(),
{
    if lists.len() > 0 {
        lemma_support_within_counts(lists.drop_last(), x, y);
    }
}

/// A pair held by some basket is counted at least once.
pub proof fn lemma_held_pair_counted(lists: Seq<Seq<Seq<char>>>, b: int, x: Seq<char>, y: Seq<char>)
    requires
        0 <= b < lists.len(),
        lists[b].contains(x),
        lists[b].contains(y),
    ensures
        count_with_both(lists, x, y) >= 1,
    decreases lists.len(),
{
    if b < lists.len() - 1 {
        lemma_held_pair_counted(lists.drop_last(), b, x, y);
    }
}

/// The number of baskets holding `x`.
pub fn baskets_with(baskets: &Vec<Basket>, x: &String) -> (n: usize)
    ensures
        n == count_with(item_lists(baskets@), x@),
{
    let ghost lists = item_lists(baskets@);
    let mut n: usize = 0;
    let mut b: usize = 0;
    while b < baskets.len()
        invariant
            lists == item_lists(baskets@),
            b <= baskets@.len(),
            n == count_with(lists.take(b as int), x@),
            n <= b,
        decreases baskets@.len() - b,
    {
        assert(lists.take(b + 1).drop_last() =~= lists.take(b as int));
        assert(lists.take(b + 1).last() == baskets@[b as int].items.deep_view());
        if list_contains(&baskets[b].items, x) {
            n = n + 1;
        }
        b = b + 1;
    }
    assert(lists.take(baskets@.len() as int) =~= lists);
    n
}

/// The number of baskets holding both `x` and `y`.
pub fn baskets_with_both(baskets: &Vec<Basket>, x: &String, y: &String) -> (n: usize)
    ensures
        n == count_with_both(item_lists(baskets@), x@, y@),
{
    let ghost lists = item_lists(baskets@);
    let mut n: usize = 0;
    let mut b: usize = 0;
    while b < baskets.len()
        invariant
            lists == item_lists(baskets@),
            b <= baskets@.len(),
            n == count_with_both(lists.take(b as int), x@, y@),
            n <= b,
        decreases baskets@.len() - b,
    {
        assert(lists.take(b + 1).drop_last() =~= lists.take(b as int));
        assert(lists.take(b + 1).last() == baskets@[b as int].items.deep_view());
        let has_x = list_contains(&baskets[b].items, x);
        let has_y = list_contains(&baskets[b].items, y);
        if has_x && has_y {
            n = n + 1;
        }
        b = b + 1;
    }
    assert(lists.take(baskets@.len() as int) =~= lists);
    n
}

// ---------------------------------------------------------------------------
// Pairs bought together
// ---------------------------------------------------------------------------

/// Two different items, the smaller in `String` order first.
pub struct ItemPair {
    pub first: String,
    pub second: String,
}

/// Some basket holds both `x` and `y`.
pub open spec fn co_occur(lists: Seq<Seq<Seq<char>>>, x: Seq<char>, y: Seq<char>) -> bool {
    exists|b: int| 0 <= b < lists.len() && #[trigger] lists[b].contains(x) && lists[b].contains(y)
}

/// The pair `{x, y}` written with its smaller item first, as the `String` order ranks them.
pub open spec fn canonical_pair(x: Seq<char>, y: Seq<char>) -> (Seq<char>, Seq<char>) {
    if text_le(x, y) {
        (x, y)
    } else {
        (y, x)
    }
}

/// `pairs` lists the pair `(x, y)`.
pub open spec fn has_pair(pairs: Seq<ItemPair>, x: Seq<char>, y: Seq<char>) -> bool {
    exists|c: int| 0 <= c < pairs.len() && (#[trigger] pairs[c]).first@ == x && pairs[c].second@ == y
}

/// `pairs` lists the pair `{x, y}`.
pub open spec fn has_canonical(pairs: Seq<ItemPair>, x: Seq<char>, y: Seq<char>) -> bool {
    has_pair(pairs, canonical_pair(x, y).0, canonical_pair(x, y).1)
}

/// Every listed pair is two different items, in order, bought together; no pair is listed twice.
pub open spec fn pairs_sound(lists: Seq<Seq<Seq<char>>>, pairs: Seq<ItemPair>) -> bool {
    &&& forall|c: int|
        0 <= c < pairs.len() ==> {
            &&& text_le((#[trigger] pairs[c]).first@, pairs[c].second@)
            &&& pairs[c].first@ != pairs[c].second@
            &&& co_occur(lists, pairs[c].first@, pairs[c].second@)
        }
    &&& forall|c: int, d: int|
        0 <= c < d < pairs.len() ==> !((#[trigger] pairs[c]).first@ == (#[trigger] pairs[d]).first@
            && pairs[c].second@ == pairs[d].second@)
}

/// `new` keeps the pairs of `old` at their places.
pub open spec fn extends(old: Seq<ItemPair>, new: Seq<ItemPair>) -> bool {
    old.len() <= new.len() && forall|c: int| 0 <= c < old.len() ==> new[c] == old[c]
}

proof fn lemma_extends_keeps(old: Seq<ItemPair>, new: Seq<ItemPair>)
    requires
        extends(old, new),
    ensures
        forall|x: Seq<char>, y: Seq<char>| has_pair(old, x, y) ==> #[trigger] has_pair(new, x, y),
{
    assert forall|x: Seq<char>, y: Seq<char>| has_pair(old, x, y) implies #[trigger] has_pair(new, x, y) by {
        let c = choose|c: int| 0 <= c < old.len() && (#[trigger] old[c]).first@ == x && old[c].second@ == y;
        assert(new[c] == old[c]);
    }
}

/// For two different items the pair is the same whichever is named first.
proof fn lemma_canonical_symmetric(x: Seq<char>, y: Seq<char>)
    requires
        x != y,
    ensures
        canonical_pair(x, y) == canonical_pair(y, x),
        text_le(canonical_pair(x, y).0, canonical_pair(x, y).1),
        canonical_pair(x, y).0 != canonical_pair(x, y).1,
{
    lemma_text_total(x, y);
    if text_le(x, y) && text_le(y, x) {
        lemma_text_antisym(x, y);
    }
}

/// Whether `pairs` lists `(x, y)`.
fn find_pair(pairs: &Vec<ItemPair>, x: &String, y: &String) -> (found: bool)
    ensures
        found == has_pair(pairs@, x@, y@),
{
    let mut c: usize = 0;
    while c < pairs.len()
        invariant
            c <= pairs@.len(),
            forall|d: int| 0 <= d < c ==> !((#[trigger] pairs@[d]).first@ == x@ && pairs@[d].second@ == y@),
        decreases pairs@.len() - c,
    {
        if pairs[c].first == *x && pairs[c].second == *y {
            return true;
        }
        c = c + 1;
    }
    false
}

/// Lists the pair `{x, y}` unless it is listed already.
fn add_pair(pairs: &mut Vec<ItemPair>, x: &String, y: &String, lists: Ghost<Seq<Seq<Seq<char>>>>)
    requires
        pairs_sound(lists@, old(pairs)@),
        x@ != y@,
        co_occur(lists@, x@, y@),
    ensures
        pairs_sound(lists@, final(pairs)@),
        extends(old(pairs)@, final(pairs)@),
        has_canonical(final(pairs)@, x@, y@),
{
    proof {
        lemma_canonical_symmetric(x@, y@);
    }
    let in_order = string_le(x, y);
    let (a, b) = if in_order {
        (x.clone(), y.clone())
    } else {
        (y.clone(), x.clone())
    };
    assert((a@, b@) == canonical_pair(x@, y@));
    assert(co_occur(lists@, a@, b@));
    if !find_pair(pairs, &a, &b) {
        let ghost before = pairs@;
        pairs.push(ItemPair { first: a, second: b });
        proof {
            let s = pairs@;
            assert(s[before.len() as int].first@ == canonical_pair(x@, y@).0);
            assert(has_pair(s, canonical_pair(x@, y@).0, canonical_pair(x@, y@).1));
            assert forall|c: int, d: int| 0 <= c < d < s.len() implies !((#[trigger] s[c]).first@
                == (#[trigger] s[d]).first@ && s[c].second@ == s[d].second@) by {
                if d == before.len() {
                    assert(s[c] == before[c]);
                }
            }
        }
    }
}

/// Lists every pair of `items[i]` with a later item of the basket.
fn add_pairs_from(pairs: &mut Vec<ItemPair>, items: &Vec<String>, i: usize, lists: Ghost<Seq<Seq<Seq<char>>>>, b: Ghost<int>)
    requires
        pairs_sound(lists@, old(pairs)@),
        0 <= b@ < lists@.len(),
        lists@[b@] == items.deep_view(),
        items.deep_view().no_duplicates(),
        i < items@.len(),
    ensures
        pairs_sound(lists@, final(pairs)@),
        extends(old(pairs)@, final(pairs)@),
        forall|j: int| i < j < items@.len() ==> has_canonical(final(pairs)@, items.deep_view()[i as int], #[trigger] items.deep_view()[j]),
{
    let n = items.len();
    let mut j: usize = i + 1;
    while j < items.len()
        invariant
            pairs_sound(lists@, pairs@),
            extends(old(pairs)@, pairs@),
            0 <= b@ < lists@.len(),
            lists@[b@] == items.deep_view(),
            items.deep_view().no_duplicates(),
            i < j <= items@.len(),
            forall|k: int| i < k < j ==> has_canonical(pairs@, items.deep_view()[i as int], #[trigger] items.deep_view()[k]),
        decreases items@.len() - j,
    {
        let ghost before = pairs@;
        assert(items.deep_view()[i as int] != items.deep_view()[j as int]);
        assert(lists@[b@].contains(items.deep_view()[i as int]));
        assert(lists@[b@].contains(items.deep_view()[j as int]));
        add_pair(pairs, &items[i], &items[j], lists);
        proof {
            lemma_extends_keeps(before, pairs@);
        }
        j = j + 1;
    }
}

/// Lists every pair of different items of one basket.
fn add_basket_pairs(pairs: &mut Vec<ItemPair>, items: &Vec<String>, lists: Ghost<Seq<Seq<Seq<char>>>>, b: Ghost<int>)
    requires
        pairs_sound(lists@, old(pairs)@),
        0 <= b@ < lists@.len(),
        lists@[b@] == items.deep_view(),
        items.deep_view().no_duplicates(),
    ensures
        pairs_sound(lists@, final(pairs)@),
        extends(old(pairs)@, final(pairs)@),
        forall|i: int, j: int|
            0 <= i < items@.len() && 0 <= j < items@.len() && i != j ==> has_canonical(
                final(pairs)@,
                #[trigger] items.deep_view()[i],
                #[trigger] items.deep_view()[j],
            ),
{
    let mut i: usize = 0;
    while i < items.len()
        invariant
            pairs_sound(lists@, pairs@),
            extends(old(pairs)@, pairs@),
            0 <= b@ < lists@.len(),
            lists@[b@] == items.deep_view(),
            items.deep_view().no_duplicates(),
            i <= items@.len(),
            forall|i2: int, j2: int|
                0 <= i2 < i && i2 < j2 < items@.len() ==> has_canonical(
                    pairs@,
                    #[trigger] items.deep_view()[i2],
                    #[trigger] items.deep_view()[j2],
                ),
        decreases items@.len() - i,
    {
        let ghost before = pairs@;
        add_pairs_from(pairs, items, i, lists, b);
        proof {
            lemma_extends_keeps(before, pairs@);
        }
        i = i + 1;
    }
    proof {
        let d = items.deep_view();
        assert forall|i: int, j: int| 0 <= i < items@.len() && 0 <= j < items@.len() && i != j implies has_canonical(
            pairs@,
            #[trigger] d[i],
            #[trigger] d[j],
        ) by {
            assert(d[i] != d[j]);
            lemma_canonical_symmetric(d[i], d[j]);
            if j < i {
                assert(has_canonical(pairs@, d[j], d[i]));
            }
        }
    }
}

/// Lists every pair of different items bought together, each once.
pub fn collect_pairs(baskets: &Vec<Basket>) -> (pairs: Vec<ItemPair>)
    requires
        forall|b: int| 0 <= b < baskets@.len() ==> (#[trigger] baskets@[b]).items.deep_view().no_duplicates(),
    ensures
        pairs_sound(item_lists(baskets@), pairs@),
        forall|b: int, i: int, j: int|
            0 <= b < baskets@.len() && 0 <= i < item_lists(baskets@)[b].len() && 0 <= j
                < item_lists(baskets@)[b].len() && i != j ==> has_canonical(
                pairs@,
                #[trigger] item_lists(baskets@)[b][i],
                #[trigger] item_lists(baskets@)[b][j],
            ),
{
    let ghost lists = item_lists(baskets@);
    let mut pairs: Vec<ItemPair> = Vec::new();
    let mut b: usize = 0;
    while b < baskets.len()
        invariant
            lists == item_lists(baskets@),
            forall|b2: int| 0 <= b2 < baskets@.len() ==> (#[trigger] baskets@[b2]).items.deep_view().no_duplicates(),
            b <= baskets@.len(),
            pairs_sound(lists, pairs@),
            forall|b2: int, i: int, j: int|
                0 <= b2 < b && 0 <= i < lists[b2].len() && 0 <= j < lists[b2].len() && i != j
                    ==> has_canonical(pairs@, #[trigger] lists[b2][i], #[trigger] lists[b2][j]),
        decreases baskets@.len() - b,
    {
        let ghost before = pairs@;
        assert(lists[b as int] == baskets@[b as int].items.deep_view());
        add_basket_pairs(&mut pairs, &baskets[b].items, Ghost(lists), Ghost(b as int));
        proof {
            lemma_extends_keeps(before, pairs@);
        }
        b = b + 1;
    }
    pairs
}

// ---------------------------------------------------------------------------
// Supports
// ---------------------------------------------------------------------------

/// A pair of items and its support: the number of baskets holding both.
pub struct PairSupport {
    pub first: String,
    pub second: String,
    pub support: usize,
}

/// `pairs` lists the pair `(x, y)`.
pub open spec fn lists_pair(pairs: Seq<PairSupport>, x: Seq<char>, y: Seq<char>) -> bool {
    exists|c: int| 0 <= c < pairs.len() && (#[trigger] pairs[c]).first@ == x && pairs[c].second@ == y
}

/// `pairs` are exactly the pairs of different items that some basket holds,
/// each once, smaller item first, with their supports.
pub open spec fn pairs_of(lists: Seq<Seq<Seq<char>>>, pairs: Seq<PairSupport>) -> bool {
    &&& forall|c: int|
        0 <= c < pairs.len() ==> {
            &&& text_le((#[trigger] pairs[c]).first@, pairs[c].second@)
            &&& pairs[c].first@ != pairs[c].second@
            &&& pairs[c].support == count_with_both(lists, pairs[c].first@, pairs[c].second@)
            &&& pairs[c].support >= 1
        }
    &&& forall|c: int, d: int|
        0 <= c < d < pairs.len() ==> !((#[trigger] pairs[c]).first@ == (#[trigger] pairs[d]).first@
            && pairs[c].second@ == pairs[d].second@)
    &&& forall|b: int, i: int, j: int|
        0 <= b < lists.len() && 0 <= i < lists[b].len() && 0 <= j < lists[b].len() && i != j
            ==> lists_pair(
            pairs,
            canonical_pair(#[trigger] lists[b][i], #[trigger] lists[b][j]).0,
            canonical_pair(lists[b][i], lists[b][j]).1,
        )
}

/// Every pair of different items bought together, with its support.
pub fn pair_supports(baskets: &Vec<Basket>) -> (supports: Vec<PairSupport>)
    requires
        forall|b: int| 0 <= b < baskets@.len() ==> (#[trigger] baskets@[b]).items.deep_view().no_duplicates(),
    ensures
        pairs_of(item_lists(baskets@), supports@),
{
    let ghost lists = item_lists(baskets@);
    let pairs = collect_pairs(baskets);
    let mut supports: Vec<PairSupport> = Vec::new();
    let mut c: usize = 0;
    while c < pairs.len()
        invariant
            lists == item_lists(baskets@),
            pairs_sound(lists, pairs@),
            c <= pairs@.len(),
            supports@.len() == c,
            forall|d: int| 0 <= d < c ==> (#[trigger] supports@[d]).first@ == pairs@[d].first@
                && supports@[d].second@ == pairs@[d].second@
                && supports@[d].support == count_with_both(lists, pairs@[d].first@, pairs@[d].second@),
        decreases pairs@.len() - c,
    {
        let support = baskets_with_both(baskets, &pairs[c].first, &pairs[c].second);
        supports.push(PairSupport { first: pairs[c].first.clone(), second: pairs[c].second.clone(), support });
        c = c + 1;
    }
    proof {
        let s = supports@;
        assert forall|c: int| 0 <= c < s.len() implies (#[trigger] s[c]).support >= 1 by {
            let b = choose|b: int| 0 <= b < lists.len() && #[trigger] lists[b].contains(pairs@[c].first@) && lists[b].contains(pairs@[c].second@);
            lemma_held_pair_counted(lists, b, pairs@[c].first@, pairs@[c].second@);
        }
        assert forall|c: int, d: int| 0 <= c < d < s.len() implies !((#[trigger] s[c]).first@ == (#[trigger] s[d]).first@
            && s[c].second@ == s[d].second@) by {
            assert(pairs@[c].first@ == s[c].first@);
            assert(pairs@[d].first@ == s[d].first@);
        }
        assert forall|b: int, i: int, j: int|
            0 <= b < lists.len() && 0 <= i < lists[b].len() && 0 <= j < lists[b].len() && i != j
            implies lists_pair(
            s,
            canonical_pair(#[trigger] lists[b][i], #[trigger] lists[b][j]).0,
            canonical_pair(lists[b][i], lists[b][j]).1,
        ) by {
            assert(has_canonical(pairs@, lists[b][i], lists[b][j]));
            let cp = canonical_pair(lists[b][i], lists[b][j]);
            let c = choose|c: int| 0 <= c < pairs@.len() && (#[trigger] pairs@[c]).first@ == cp.0 && pairs@[c].second@ == cp.1;
            assert(s[c].first@ == cp.0);
        }
    }
    supports
}

// ---------------------------------------------------------------------------
// Rules
// ---------------------------------------------------------------------------

/// A rule "who buys `item_a` also buys `item_b`": its support, and the numbers
/// of baskets holding each item. Its confidence is `support / count_a`.
pub struct RuleCounts {
    pub item_a: String,
    pub item_b: String,
    pub support: usize,
    pub count_a: usize,
    pub count_b: usize,
}

/// The mathematical content of a rule.
pub struct RuleSpec {
    pub item_a: Seq<char>,
    pub item_b: Seq<char>,
    pub support: nat,
    pub count_a: nat,
    pub count_b: nat,
}

impl View for RuleCounts {
    type V = RuleSpec;

    open spec fn view(&self) -> RuleSpec {
        RuleSpec {
            item_a: self.item_a@,
            item_b: self.item_b@,
            support: self.support as nat,
            count_a: self.count_a as nat,
            count_b: self.count_b as nat,
        }
    }
}

/// The rules of a sequence, as values.
pub open spec fn rule_views(rules: Seq<RuleCounts>) -> Seq<RuleSpec> {
    Seq::new(rules.len(), |i: int| rules[i]@)
}

/// The rule that a pair gives. Of the two directions, the one with the higher
/// confidence is kept: the item bought in fewer baskets leads; on a tie the
/// pair's first item leads.
pub open spec fn rule_for(lists: Seq<Seq<Seq<char>>>, pair: PairSupport) -> RuleSpec {
    let cf = count_with(lists, pair.first@);
    let cs = count_with(lists, pair.second@);
    if cf <= cs {
        RuleSpec { item_a: pair.first@, item_b: pair.second@, support: pair.support as nat, count_a: cf, count_b: cs }
    } else {
        RuleSpec { item_a: pair.second@, item_b: pair.first@, support: pair.support as nat, count_a: cs, count_b: cf }
    }
}

/// The smallest support that a rule needs.
pub const MIN_SUPPORT: usize = 2;

/// The rules of the pairs that reach the minimum support, in the pairs' order.
pub open spec fn rules_from(lists: Seq<Seq<Seq<char>>>, pairs: Seq<PairSupport>) -> Seq<RuleSpec>
    decreases pairs.len(),
{
    if pairs.len() == 0 {
        seq![]
    } else {
        let rest = rules_from(lists, pairs.drop_last());
        if pairs.last().support >= MIN_SUPPORT {
            rest.push(rule_for(lists, pairs.last()))
        } else {
            rest
        }
    }
}

/// Every rule has at least the minimum support, no more support than baskets
/// holding its leading item, and leads with the less frequent item.
pub proof fn lemma_rules_bounded(lists: Seq<Seq<Seq<char>>>, pairs: Seq<PairSupport>)
    requires
        forall|c: int|
            0 <= c < pairs.len() ==> (#[trigger] pairs[c]).support == count_with_both(
                lists,
                pairs[c].first@,
                pairs[c].second@,
            ),
    ensures
        rules_from(lists, pairs).len() <= pairs.len(),
        forall|k: int|
            0 <= k < rules_from(lists, pairs).len() ==> {
                &&& (#[trigger] rules_from(lists, pairs)[k]).support >= MIN_SUPPORT
                &&& rules_from(lists, pairs)[k].support <= rules_from(lists, pairs)[k].count_a
                &&& rules_from(lists, pairs)[k].count_a <= rules_from(lists, pairs)[k].count_b
                &&& rules_from(lists, pairs)[k].count_b <= lists.len()
            },
    decreases pairs.len(),
{
    if pairs.len() > 0 {
        let init = pairs.drop_last();
        assert forall|c: int| 0 <= c < init.len() implies (#[trigger] init[c]).support == count_with_both(
            lists,
            init[c].first@,
            init[c].second@,
        ) by {
            assert(init[c] == pairs[c]);
        }
        lemma_rules_bounded(lists, init);
        let p = pairs.last();
        lemma_support_within_counts(lists, p.first@, p.second@);
        lemma_support_within_counts(lists, p.second@, p.first@);
    }
}

/// Every rule counts what its name says: `count_a` is the number of baskets
/// holding `item_a`, `count_b` the number holding `item_b`, and `support` the
/// number holding both.
pub proof fn lemma_rule_counts_are_basket_counts(lists: Seq<Seq<Seq<char>>>, pairs: Seq<PairSupport>)
    requires
        forall|c: int|
            0 <= c < pairs.len() ==> (#[trigger] pairs[c]).support == count_with_both(
                lists,
                pairs[c].first@,
                pairs[c].second@,
            ),
    ensures
        forall|k: int|
            0 <= k < rules_from(lists, pairs).len() ==> {
                &&& (#[trigger] rules_from(lists, pairs)[k]).count_a == count_with(lists, rules_from(lists, pairs)[k].item_a)
                &&& rules_from(lists, pairs)[k].count_b == count_with(lists, rules_from(lists, pairs)[k].item_b)
                &&& rules_from(lists, pairs)[k].support == count_with_both(
                    lists,
                    rules_from(lists, pairs)[k].item_a,
                    rules_from(lists, pairs)[k].item_b,
                )
            },
    decreases pairs.len(),
{
    if pairs.len() > 0 {
        let init = pairs.drop_last();
        assert forall|c: int| 0 <= c < init.len() implies (#[trigger] init[c]).support == count_with_both(
            lists,
            init[c].first@,
            init[c].second@,
        ) by {
            assert(init[c] == pairs[c]);
        }
        lemma_rule_counts_are_basket_counts(lists, init);
        let p = pairs.last();
        lemma_support_within_counts(lists, p.first@, p.second@);
        let rest = rules_from(lists, init);
        let all = rules_from(lists, pairs);
        assert forall|k: int| 0 <= k < all.len() implies {
            &&& (#[trigger] all[k]).count_a == count_with(lists, all[k].item_a)
            &&& all[k].count_b == count_with(lists, all[k].item_b)
            &&& all[k].support == count_with_both(lists, all[k].item_a, all[k].item_b)
        } by {
            if k < rest.len() {
                assert(all[k] == rest[k]);
            } else {
                assert(all[k] == rule_for(lists, p));
            }
        }
    }
}

/// The rule of one pair.
fn rule_of_pair(baskets: &Vec<Basket>, pair: &PairSupport) -> (rule: RuleCounts)
    ensures
        rule@ == rule_for(item_lists(baskets@), *pair),
{
    let cf = baskets_with(baskets, &pair.first);
    let cs = baskets_with(baskets, &pair.second);
    if cf <= cs {
        RuleCounts { item_a: pair.first.clone(), item_b: pair.second.clone(), support: pair.support, count_a: cf, count_b: cs }
    } else {
        RuleCounts { item_a: pair.second.clone(), item_b: pair.first.clone(), support: pair.support, count_a: cs, count_b: cf }
    }
}

/// The rules of the pairs that reach the minimum support.
pub fn basket_rules(baskets: &Vec<Basket>, pairs: &Vec<PairSupport>) -> (rules: Vec<RuleCounts>)
    ensures
        rule_views(rules@) == rules_from(item_lists(baskets@), pairs@),
{
    let ghost lists = item_lists(baskets@);
    let mut rules: Vec<RuleCounts> = Vec::new();
    let mut c: usize = 0;
    while c < pairs.len()
        invariant
            lists == item_lists(baskets@),
            c <= pairs@.len(),
            rule_views(rules@) =~= rules_from(lists, pairs@.take(c as int)),
        decreases pairs@.len() - c,
    {
        assert(pairs@.take(c + 1).drop_last() =~= pairs@.take(c as int));
        assert(pairs@.take(c + 1).last() == pairs@[c as int]);
        if pairs[c].support >= MIN_SUPPORT {
            let rule = rule_of_pair(baskets, &pairs[c]);
            rules.push(rule);
        }
        c = c + 1;
    }
    assert(pairs@.take(pairs@.len() as int) =~= pairs@);
    rules
}

// ---------------------------------------------------------------------------
// The strongest rules
// ---------------------------------------------------------------------------

/// The number of rules reported.
pub const MAX_RULES: usize = 10;

/// The confidences of the rules, as sort keys: the higher confidence first.
pub open spec fn confidence_keys(rules: Seq<RuleSpec>) -> Seq<RatioHighFirst> {
    Seq::new(rules.len(), |i: int| RatioHighFirst { num: rules[i].support as usize, den: rules[i].count_a as usize })
}

/// The smaller of two numbers.
pub open spec fn min_nat(a: nat, b: nat) -> nat {
    if a <= b {
        a
    } else {
        b
    }
}

/// `top` lists the first `MAX_RULES` rules of the stable sort `ord` of `rules`
/// by confidence.
pub open spec fn top_of(rules: Seq<RuleSpec>, ord: Seq<usize>, top: Seq<RuleSpec>) -> bool {
    &&& is_stable_order(confidence_keys(rules), ord)
    &&& top.len() == min_nat(rules.len(), MAX_RULES as nat)
    &&& forall|p: int| 0 <= p < top.len() ==> #[trigger] top[p] == rules[ord[p] as int]
}

fn copy_rule(rule: &RuleCounts) -> (out: RuleCounts)
    ensures
        out@ == rule@,
{
    RuleCounts {
        item_a: rule.item_a.clone(),
        item_b: rule.item_b.clone(),
        support: rule.support,
        count_a: rule.count_a,
        count_b: rule.count_b,
    }
}

/// Sorts the rules by confidence, highest first (ties keep their order), and
/// keeps the first `MAX_RULES`.
pub fn top_rules(rules: &Vec<RuleCounts>) -> (top: Vec<RuleCounts>)
    ensures
        exists|ord: Seq<usize>| #[trigger] top_of(rule_views(rules@), ord, rule_views(top@)),
{
    let ghost views = rule_views(rules@);
    let mut keys: Vec<RatioHighFirst> = Vec::new();
    let mut i: usize = 0;
    while i < rules.len()
        invariant
            views == rule_views(rules@),
            i <= rules@.len(),
            keys@ =~= confidence_keys(views).take(i as int),
        decreases rules@.len() - i,
    {
        keys.push(RatioHighFirst { num: rules[i].support, den: rules[i].count_a });
        i = i + 1;
    }
    assert(keys@ =~= confidence_keys(views));
    let ord = stable_order(&keys);
    let n = if rules.len() < MAX_RULES {
        rules.len()
    } else {
        MAX_RULES
    };
    let mut top: Vec<RuleCounts> = Vec::new();
    let mut p: usize = 0;
    while p < n
        invariant
            views == rule_views(rules@),
            is_stable_order(confidence_keys(views), ord@),
            n == min_nat(views.len(), MAX_RULES as nat),
            p <= n,
            top@.len() == p,
            forall|q: int| 0 <= q < p ==> (#[trigger] top@[q])@ == views[ord@[q] as int],
        decreases n - p,
    {
        let rule = copy_rule(&rules[ord[p]]);
        top.push(rule);
        p = p + 1;
    }
    assert(top_of(views, ord@, rule_views(top@)));
    top
}

// ---------------------------------------------------------------------------
// The report
// ---------------------------------------------------------------------------

/// A reported rule, with the display names of its items.
pub struct BasketRule {
    pub item_a: String,
    pub item_b: String,
    pub name_a: String,
    pub name_b: String,
    pub support: usize,
    pub count_a: usize,
    pub count_b: usize,
}

/// The outcome of a basket analysis.
pub struct BasketReport {
    pub rules: Vec<BasketRule>,
    pub transaction_count: usize,
    pub skipped_rows: usize,
    pub total_rows: usize,
}

/// `rule` reports `spec` under the names that `master` gives.
pub open spec fn reports_rule(master: Seq<(Seq<char>, Seq<char>)>, rule: BasketRule, spec: RuleSpec) -> bool {
    &&& rule.item_a@ == spec.item_a
    &&& rule.item_b@ == spec.item_b
    &&& rule.name_a@ == display_name(master, spec.item_a)
    &&& rule.name_b@ == display_name(master, spec.item_b)
    &&& rule.support == spec.support
    &&& rule.count_a == spec.count_a
    &&& rule.count_b == spec.count_b
}

/// `report` is the basket analysis of `rows`, given the transactions'
/// baskets, the pairs bought together and the stable order of their rules by
/// confidence.
pub open spec fn basket_report_from(
    rows: Seq<Option<SaleLine>>,
    master: Seq<(Seq<char>, Seq<char>)>,
    report: BasketReport,
    baskets: Seq<Basket>,
    pairs: Seq<PairSupport>,
    ord: Seq<usize>,
) -> bool {
    let lists = item_lists(baskets);
    let rules = rules_from(lists, pairs);
    &&& baskets_of(rows, baskets)
    &&& pairs_of(lists, pairs)
    &&& report.transaction_count == baskets.len()
    &&& is_stable_order(confidence_keys(rules), ord)
    &&& report.rules@.len() == min_nat(rules.len(), MAX_RULES as nat)
    &&& forall|p: int|
        0 <= p < report.rules@.len() ==> reports_rule(master, #[trigger] report.rules@[p], rules[ord[p] as int])
}

/// Analyzes sales rows: groups them into baskets by transaction, counts the
/// pairs of items bought together, turns every pair bought together in at
/// least `MIN_SUPPORT` baskets into a rule, and reports the `MAX_RULES` rules
/// of highest confidence, highest first.
pub fn analyze_basket(rows: &Vec<Option<SaleLine>>, master: &ItemMaster) -> (report: BasketReport)
    ensures
        exists|baskets: Seq<Basket>, pairs: Seq<PairSupport>, ord: Seq<usize>|
            #[trigger] basket_report_from(rows@, master@, report, baskets, pairs, ord),
        report.total_rows == rows@.len(),
        report.skipped_rows == skipped_in(rows@),
        report.rules@.len() <= MAX_RULES,
        forall|p: int|
            0 <= p < report.rules@.len() ==> {
                &&& MIN_SUPPORT <= (#[trigger] report.rules@[p]).support
                &&& report.rules@[p].support <= report.rules@[p].count_a
                &&& report.rules@[p].count_a <= report.rules@[p].count_b
                &&& report.rules@[p].count_b <= report.transaction_count
            },
        forall|p: int, q: int|
            0 <= p < q < report.rules@.len() ==> (#[trigger] report.rules@[p]).support * (#[trigger] report.rules@[q]).count_a
                >= report.rules@[q].support * report.rules@[p].count_a,
        exists|baskets: Seq<Basket>|
            #[trigger] baskets_of(rows@, baskets) && report.transaction_count == baskets.len() && forall|p: int|
                0 <= p < report.rules@.len() ==> {
                    &&& (#[trigger] report.rules@[p]).count_a == count_with(item_lists(baskets), report.rules@[p].item_a@)
                    &&& report.rules@[p].count_b == count_with(item_lists(baskets), report.rules@[p].item_b@)
                    &&& report.rules@[p].support == count_with_both(
                        item_lists(baskets),
                        report.rules@[p].item_a@,
                        report.rules@[p].item_b@,
                    )
                },
{
    let baskets = collect_baskets(rows);
    let supports = pair_supports(&baskets);
    let rules = basket_rules(&baskets, &supports);
    let top = top_rules(&rules);
    let ghost lists = item_lists(baskets@);
    let ghost all_rules = rules_from(lists, supports@);
    let ghost ord = choose|ord: Seq<usize>| #[trigger] top_of(rule_views(rules@), ord, rule_views(top@));
    proof {
        assert(top_of(all_rules, ord, rule_views(top@)));
        lemma_rules_bounded(lists, supports@);
    }
    let mut out: Vec<BasketRule> = Vec::new();
    let mut p: usize = 0;
    while p < top.len()
        invariant
            top_of(all_rules, ord, rule_views(top@)),
            p <= top@.len(),
            out@.len() == p,
            forall|q: int| 0 <= q < p ==> reports_rule(master@, #[trigger] out@[q], all_rules[ord[q] as int]),
        decreases top@.len() - p,
    {
        let rule = &top[p];
        assert(rule_views(top@)[p as int] == all_rules[ord[p as int] as int]);
        out.push(BasketRule {
            item_a: rule.item_a.clone(),
            item_b: rule.item_b.clone(),
            name_a: master.name_of(&rule.item_a),
            name_b: master.name_of(&rule.item_b),
            support: rule.support,
            count_a: rule.count_a,
            count_b: rule.count_b,
        });
        p = p + 1;
    }
    let report = BasketReport {
        rules: out,
        transaction_count: baskets.len(),
        skipped_rows: count_skipped(rows),
        total_rows: rows.len(),
    };
    proof {
        assert(basket_report_from(rows@, master@, report, baskets@, supports@, ord));
        let keys = confidence_keys(all_rules);
        assert forall|p: int| 0 <= p < report.rules@.len() implies {
            &&& MIN_SUPPORT <= (#[trigger] report.rules@[p]).support
            &&& report.rules@[p].support <= report.rules@[p].count_a
            &&& report.rules@[p].count_a <= report.rules@[p].count_b
            &&& report.rules@[p].count_b <= report.transaction_count
        } by {
            let k = ord[p] as int;
            assert(ord[p] < all_rules.len());
            assert(all_rules[k].support >= MIN_SUPPORT);
        }
        assert forall|p: int, q: int| 0 <= p < q < report.rules@.len() implies (#[trigger] report.rules@[p]).support
            * (#[trigger] report.rules@[q]).count_a >= report.rules@[q].support * report.rules@[p].count_a by {
            let i = ord[p] as int;
            let j = ord[q] as int;
            assert(goes_before(keys, i, j));
            assert(ord[p] < all_rules.len() && ord[q] < all_rules.len());
            assert(all_rules[i].count_a >= MIN_SUPPORT);
            assert(all_rules[j].count_a >= MIN_SUPPORT);
            assert(keys[i].may_precede(keys[j]));
        }
        assert forall|p: int| 0 <= p < report.rules@.len() implies {
            &&& (#[trigger] report.rules@[p]).count_a == count_with(item_lists(baskets@), report.rules@[p].item_a@)
            &&& report.rules@[p].count_b == count_with(item_lists(baskets@), report.rules@[p].item_b@)
            &&& report.rules@[p].support == count_with_both(
                item_lists(baskets@),
                report.rules@[p].item_a@,
                report.rules@[p].item_b@,
            )
        } by {
            lemma_reported_rule_counts(rows@, master@, report, baskets@, supports@, ord, p);
        }
        assert(baskets_of(rows@, baskets@));
    }
    report
}

/// The reported rules are the strongest: a rule left out has no higher
/// confidence than any reported one.
pub proof fn lemma_reported_rules_are_strongest(
    rows: Seq<Option<SaleLine>>,
    master: Seq<(Seq<char>, Seq<char>)>,
    report: BasketReport,
    baskets: Seq<Basket>,
    pairs: Seq<PairSupport>,
    ord: Seq<usize>,
    k: usize,
    p: int,
)
    requires
        basket_report_from(rows, master, report, baskets, pairs, ord),
        k < rules_from(item_lists(baskets), pairs).len(),
        forall|q: int| 0 <= q < report.rules@.len() ==> #[trigger] ord[q] != k,
        0 <= p < report.rules@.len(),
    ensures
        report.rules@[p].support * rules_from(item_lists(baskets), pairs)[k as int].count_a
            >= rules_from(item_lists(baskets), pairs)[k as int].support * report.rules@[p].count_a,
{
    let lists = item_lists(baskets);
    let rules = rules_from(lists, pairs);
    let keys = confidence_keys(rules);
    lemma_rules_bounded(lists, pairs);
    assert(ord.contains(k));
    let q = choose|q: int| 0 <= q < ord.len() && ord[q] == k;
    if q < report.rules@.len() {
        assert(ord[q] != k);
    }
    let i = ord[p] as int;
    assert(ord[p] < rules.len());
    assert(goes_before(keys, ord[p] as int, ord[q] as int));
    assert(keys[i].may_precede(keys[k as int]));
    assert(rules[k as int].count_a >= MIN_SUPPORT);
    assert(rules[i].count_a >= MIN_SUPPORT);
}

/// Every reported rule counts what its name says, over the transactions'
/// baskets: `count_a` is the number of baskets holding `item_a`, `count_b`
/// the number holding `item_b`, and `support` the number holding both.
pub proof fn lemma_reported_rule_counts(
    rows: Seq<Option<SaleLine>>,
    master: Seq<(Seq<char>, Seq<char>)>,
    report: BasketReport,
    baskets: Seq<Basket>,
    pairs: Seq<PairSupport>,
    ord: Seq<usize>,
    p: int,
)
    requires
        basket_report_from(rows, master, report, baskets, pairs, ord),
        0 <= p < report.rules@.len(),
    ensures
        report.rules@[p].count_a == count_with(item_lists(baskets), report.rules@[p].item_a@),
        report.rules@[p].count_b == count_with(item_lists(baskets), report.rules@[p].item_b@),
        report.rules@[p].support == count_with_both(
            item_lists(baskets),
            report.rules@[p].item_a@,
            report.rules@[p].item_b@,
        ),
{
    let lists = item_lists(baskets);
    let rules = rules_from(lists, pairs);
    lemma_rule_counts_are_basket_counts(lists, pairs);
    let k = ord[p] as int;
    assert(ord[p] < rules.len());
    assert(reports_rule(master, report.rules@[p], rules[k]));
}

} // verus!
