//! RFM analysis: customers scored by recency, frequency and monetary value,
//! and grouped into segments by their total score.
use vstd::prelude::*;
use crate::grouping::{KeyGroup, is_grouping, group_by_key, grouped_rows, present_count};
use crate::order::{HighFirst, TextDescending, is_stable_order, goes_before, stable_order};
use crate::order::{text_le, string_le, compose_orders, permuted};
use crate::rows::{CustomerPurchase, skipped_in, count_skipped};

verus! {

// ---------------------------------------------------------------------------
// Customers
// ---------------------------------------------------------------------------

/// A customer's purchases: the rows (by index, in increasing order) and the
/// latest purchase date among them.
pub struct CustomerSummary {
    pub purchases: KeyGroup,
    pub last_date: String,
}

/// The customers of a purchases file, with the counts of its rows.
pub struct CustomerTable {
    pub customers: Vec<CustomerSummary>,
    pub skipped_rows: usize,
    pub total_rows: usize,
}

/// The customer ids of the rows, `None` for rows that could not be read.
pub open spec fn customer_keys(rows: Seq<Option<CustomerPurchase>>) -> Seq<Option<Seq<char>>> {
    Seq::new(
        rows.len(),
        |r: int|
            match rows[r] {
                Some(row) => Some(row.customer_id@),
                None => None,
            },
    )
}

/// The purchase groups of the customers.
pub open spec fn purchase_groups(customers: Seq<CustomerSummary>) -> Seq<KeyGroup> {
    Seq::new(customers.len(), |c: int| customers[c].purchases)
}

/// `date` is the latest (in `String` order) of the purchase dates of the rows `picks`.
pub open spec fn is_latest_date(rows: Seq<Option<CustomerPurchase>>, picks: Seq<usize>, date: Seq<char>) -> bool {
    &&& forall|p: int| 0 <= p < picks.len() ==> text_le(rows[#[trigger] picks[p] as int]->0.purchase_date@, date)
    &&& exists|p: int| 0 <= p < picks.len() && rows[#[trigger] picks[p] as int]->0.purchase_date@ == date
}

/// `customers` lists each customer of `rows` once, in order of first
/// appearance, with all its rows and its latest purchase date.
pub open spec fn customers_of(rows: Seq<Option<CustomerPurchase>>, customers: Seq<CustomerSummary>) -> bool {
    &&& is_grouping(customer_keys(rows), purchase_groups(customers))
    &&& forall|c: int|
        0 <= c < customers.len() ==> is_latest_date(rows, (#[trigger] customers[c]).purchases.rows@, customers[c].last_date@)
}

fn customer_ids(rows: &Vec<Option<CustomerPurchase>>) -> (keys: Vec<Option<String>>)
    ensures
        keys.deep_view() == customer_keys(rows@),
{
    let mut keys: Vec<Option<String>> = Vec::new();
    let mut i: usize = 0;
    while i < rows.len()
        invariant
            i <= rows@.len(),
            keys.deep_view() =~= customer_keys(rows@).take(i as int),
        decreases rows@.len() - i,
    {
        let ghost before = keys.deep_view();
        match &rows[i] {
            Some(row) => keys.push(Some(row.customer_id.clone())),
            None => keys.push(None),
        }
        assert(keys.deep_view() =~= before.push(customer_keys(rows@)[i as int]));
        assert(customer_keys(rows@).take(i + 1) =~= customer_keys(rows@).take(i as int).push(
            customer_keys(rows@)[i as int],
        ));
        i = i + 1;
    }
    keys
}

/// The latest purchase date among the rows `picks`, starting from the empty text.
fn latest_date(rows: &Vec<Option<CustomerPurchase>>, picks: &Vec<usize>) -> (date: String)
    requires
        picks@.len() > 0,
        forall|p: int| 0 <= p < picks@.len() ==> (#[trigger] picks@[p]) < rows@.len() && rows@[picks@[p] as int] is Some,
    ensures
        is_latest_date(rows@, picks@, date@),
{
    let mut latest = String::new();
    let mut p: usize = 0;
    while p < picks.len()
        invariant
            picks@.len() > 0,
            forall|q: int| 0 <= q < picks@.len() ==> (#[trigger] picks@[q]) < rows@.len() && rows@[picks@[q] as int] is Some,
            p <= picks@.len(),
            p == 0 ==> latest@ == Seq::<char>::empty(),
            forall|q: int| 0 <= q < p ==> text_le(rows@[#[trigger] picks@[q] as int]->0.purchase_date@, latest@),
            p > 0 ==> exists|q: int| 0 <= q < p && rows@[#[trigger] picks@[q] as int]->0.purchase_date@ == latest@,
        decreases picks@.len() - p,
    {
        let r = picks[p];
        match &rows[r] {
            Some(row) => {
                let ghost d = row.purchase_date@;
                if !string_le(&row.purchase_date, &latest) {
                    proof {
                        crate::order::lemma_text_total(d, latest@);
                        assert forall|q: int| 0 <= q < p implies text_le(rows@[#[trigger] picks@[q] as int]->0.purchase_date@, d) by {
                            crate::order::lemma_text_trans(rows@[picks@[q] as int]->0.purchase_date@, latest@, d);
                        }
                        assert(rows@[picks@[p as int] as int]->0.purchase_date@ == d);
                    }
                    latest = row.purchase_date.clone();
                    proof {
                        crate::order::lemma_lex_total(vstd::utf8::encode_utf8(d), vstd::utf8::encode_utf8(d));
                    }
                } else {
                    proof {
                        if p == 0 {
                            assert(vstd::utf8::encode_utf8(latest@) =~= Seq::<u8>::empty());
                            assert(text_le(latest@, d));
                            crate::order::lemma_text_antisym(latest@, d);
                            assert(rows@[picks@[p as int] as int]->0.purchase_date@ == latest@);
                        }
                    }
                }
            },
            None => {
                assert(false);
            },
        }
        p = p + 1;
    }
    latest
}

/// Collects the customers of a purchases file.
pub fn rfm_customers(rows: &Vec<Option<CustomerPurchase>>) -> (table: CustomerTable)
    ensures
        customers_of(rows@, table.customers@),
        table.total_rows == rows@.len(),
        table.skipped_rows == skipped_in(rows@),
{
    let keys = customer_ids(rows);
    let ghost ks = keys.deep_view();
    let groups = group_by_key(&keys);
    let mut customers: Vec<CustomerSummary> = Vec::new();
    let mut g: usize = 0;
    while g < groups.len()
        invariant
            ks == customer_keys(rows@),
            is_grouping(ks, groups@),
            g <= groups@.len(),
            customers@.len() == g,
            forall|c: int| 0 <= c < g ==> (#[trigger] customers@[c]).purchases.key@ == groups@[c].key@
                && customers@[c].purchases.rows@ == groups@[c].rows@,
            forall|c: int|
                0 <= c < g ==> is_latest_date(rows@, (#[trigger] customers@[c]).purchases.rows@, customers@[c].last_date@),
        decreases groups@.len() - g,
    {
        let group = &groups[g];
        assert forall|p: int| 0 <= p < group.rows@.len() implies (#[trigger] group.rows@[p]) < rows@.len()
            && rows@[group.rows@[p] as int] is Some by {
            assert(groups@[g as int].rows@[p] < ks.len());
            assert(ks[group.rows@[p] as int] is Some);
        }
        let last_date = latest_date(rows, &group.rows);
        let purchases = KeyGroup { key: group.key.clone(), rows: group.rows.clone() };
        assert(purchases.rows@ =~= group.rows@);
        customers.push(CustomerSummary { purchases, last_date });
        g = g + 1;
    }
    proof {
        crate::grouping::lemma_grouping_same_views(ks, groups@, purchase_groups(customers@));
    }
    CustomerTable { customers, skipped_rows: count_skipped(rows), total_rows: rows.len() }
}

// ---------------------------------------------------------------------------
// Scores
// ---------------------------------------------------------------------------

/// The score of the customer at position `p` of a ranking of `n` customers:
/// 3 in the first third, 2 in the second, 1 in the rest.
pub open spec fn tier(p: int, n: int) -> u8 {
    if p < n / 3 {
        3
    } else if p < (2 * n) / 3 {
        2
    } else {
        1
    }
}

/// The customers' latest purchase dates, as sort keys: the latest first.
pub open spec fn recency_keys(customers: Seq<CustomerSummary>) -> Seq<TextDescending> {
    Seq::new(customers.len(), |c: int| TextDescending(customers[c].last_date))
}

/// The customers' purchase counts, listed in the order `base`, as sort keys: the most first.
pub open spec fn frequency_keys(customers: Seq<CustomerSummary>, base: Seq<usize>) -> Seq<HighFirst> {
    Seq::new(base.len(), |p: int| HighFirst(customers[base[p] as int].purchases.rows@.len() as u64))
}

/// The monetary keys, listed in the order `base`, as sort keys: the highest first.
pub open spec fn monetary_keys_in(keys: Seq<u64>, base: Seq<usize>) -> Seq<HighFirst> {
    Seq::new(base.len(), |p: int| HighFirst(keys[base[p] as int]))
}

/// The three rankings of the customers and their scores. Each ranking lists
/// customer indices; `recency[c]` is the recency score of customer `c`.
pub struct RfmScores {
    pub recency_order: Vec<usize>,
    pub frequency_order: Vec<usize>,
    pub monetary_order: Vec<usize>,
    pub recency: Vec<u8>,
    pub frequency: Vec<u8>,
    pub monetary: Vec<u8>,
}

/// `scores` gives the customer at position `p` of `order` the score `tier(p, n)`.
pub open spec fn scored_by(order: Seq<usize>, scores: Seq<u8>) -> bool {
    &&& scores.len() == order.len()
    &&& forall|p: int| 0 <= p < order.len() ==> scores[#[trigger] order[p] as int] == tier(p, order.len() as int)
}

/// `s` ranks and scores the customers: by latest purchase date (latest
/// first), then that ranking re-sorted stably by purchase count (most first),
/// then that one re-sorted stably by the monetary keys (highest first).
pub open spec fn rfm_scored(customers: Seq<CustomerSummary>, monetary: Seq<u64>, s: RfmScores, fo: Seq<usize>, mo: Seq<usize>) -> bool {
    &&& is_stable_order(recency_keys(customers), s.recency_order@)
    &&& is_stable_order(frequency_keys(customers, s.recency_order@), fo)
    &&& s.frequency_order@ == permuted(s.recency_order@, fo)
    &&& is_stable_order(monetary_keys_in(monetary, s.frequency_order@), mo)
    &&& s.monetary_order@ == permuted(s.frequency_order@, mo)
    &&& scored_by(s.recency_order@, s.recency@)
    &&& scored_by(s.frequency_order@, s.frequency@)
    &&& scored_by(s.monetary_order@, s.monetary@)
}

/// The third and two thirds (rounded down) of `n`.
fn tier_bounds(n: usize) -> (bounds: (usize, usize))
    ensures
        bounds.0 == n / 3,
        bounds.1 == (2 * n) / 3,
{
    let t1 = n / 3;
    let up = if n % 3 != 0 {
        t1 + 1
    } else {
        t1
    };
    assert((2 * n) / 3 == n - up) by (nonlinear_arith)
        requires t1 == n / 3, up == (if n % 3 != 0 { t1 + 1 } else { t1 as int });
    (t1, n - up)
}

/// Scores the customers at each position of `order`.
fn scores_from(order: &Vec<usize>) -> (scores: Vec<u8>)
    requires
        crate::order::is_permutation(order@, order@.len()),
    ensures
        scored_by(order@, scores@),
{
    let n = order.len();
    let (t1, t2) = tier_bounds(n);
    let mut scores: Vec<u8> = vec![0u8; n];
    let mut p: usize = 0;
    while p < n
        invariant
            n == order@.len(),
            t1 == n / 3,
            t2 == (2 * n) / 3,
            crate::order::is_permutation(order@, n as nat),
            scores@.len() == n,
            p <= n,
            forall|q: int| 0 <= q < p ==> scores@[#[trigger] order@[q] as int] == tier(q, n as int),
        decreases n - p,
    {
        let score: u8 = if p < t1 {
            3
        } else if p < t2 {
            2
        } else {
            1
        };
        let ghost before = scores@;
        scores.set(order[p], score);
        proof {
            assert forall|q: int| 0 <= q < p + 1 implies scores@[#[trigger] order@[q] as int] == tier(q, n as int) by {
                if q < p {
                    assert(order@[q] != order@[p as int]);
                }
            }
        }
        p = p + 1;
    }
    scores
}

fn frequency_sort_keys(customers: &Vec<CustomerSummary>, base: &Vec<usize>) -> (keys: Vec<HighFirst>)
    requires
        forall|p: int| 0 <= p < base@.len() ==> #[trigger] base@[p] < customers@.len(),
    ensures
        keys@ == frequency_keys(customers@, base@),
{
    let mut keys: Vec<HighFirst> = Vec::new();
    let mut p: usize = 0;
    while p < base.len()
        invariant
            forall|q: int| 0 <= q < base@.len() ==> #[trigger] base@[q] < customers@.len(),
            p <= base@.len(),
            keys@ =~= frequency_keys(customers@, base@).take(p as int),
        decreases base@.len() - p,
    {
        keys.push(HighFirst(customers[base[p]].purchases.rows.len() as u64));
        p = p + 1;
    }
    assert(keys@ =~= frequency_keys(customers@, base@));
    keys
}

fn monetary_sort_keys(monetary: &Vec<u64>, base: &Vec<usize>) -> (keys: Vec<HighFirst>)
    requires
        forall|p: int| 0 <= p < base@.len() ==> #[trigger] base@[p] < monetary@.len(),
    ensures
        keys@ == monetary_keys_in(monetary@, base@),
{
    let mut keys: Vec<HighFirst> = Vec::new();
    let mut p: usize = 0;
    while p < base.len()
        invariant
            forall|q: int| 0 <= q < base@.len() ==> #[trigger] base@[q] < monetary@.len(),
            p <= base@.len(),
            keys@ =~= monetary_keys_in(monetary@, base@).take(p as int),
        decreases base@.len() - p,
    {
        keys.push(HighFirst(monetary[base[p]]));
        p = p + 1;
    }
    assert(keys@ =~= monetary_keys_in(monetary@, base@));
    keys
}

/// Composing a permutation with a permutation gives a permutation.
proof fn lemma_compose_permutation(base: Seq<usize>, ord: Seq<usize>)
    requires
        base.len() <= usize::MAX,
        crate::order::is_permutation(base, base.len()),
        crate::order::is_permutation(ord, base.len()),
    ensures
        crate::order::is_permutation(permuted(base, ord), base.len()),
{
    let s = permuted(base, ord);
    let n = base.len();
    assert forall|p: int, q: int| 0 <= p < q < n implies s[p] != s[q] by {
        assert(ord[p] != ord[q]);
    }
    assert forall|i: usize| i < n implies #[trigger] s.contains(i) by {
        assert(base.contains(i));
        let k = choose|k: int| 0 <= k < n && base[k] == i;
        let ku = k as usize;
        assert(ord.contains(ku));
        let p = choose|p: int| 0 <= p < n && ord[p] == ku;
        assert(s[p] == base[ku as int]);
    }
}

/// Ranks and scores the customers. `monetary[c]` orders the customers by
/// monetary value as their total purchase amounts do (a higher key for a
/// higher amount, equal keys for equal amounts).
pub fn rfm_scores(customers: &Vec<CustomerSummary>, monetary: &Vec<u64>) -> (scores: RfmScores)
    requires
        monetary@.len() == customers@.len(),
    ensures
        exists|fo: Seq<usize>, mo: Seq<usize>| #[trigger] rfm_scored(customers@, monetary@, scores, fo, mo),
        crate::order::is_permutation(scores.recency_order@, customers@.len()),
        crate::order::is_permutation(scores.frequency_order@, customers@.len()),
        crate::order::is_permutation(scores.monetary_order@, customers@.len()),
{
    let n = customers.len();
    let mut rkeys: Vec<TextDescending> = Vec::new();
    let mut c: usize = 0;
    while c < n
        invariant
            n == customers@.len(),
            c <= n,
            rkeys@ =~= recency_keys(customers@).take(c as int),
        decreases n - c,
    {
        rkeys.push(TextDescending(customers[c].last_date.clone()));
        c = c + 1;
    }
    assert(rkeys@ =~= recency_keys(customers@));
    let recency_order = stable_order(&rkeys);
    let fkeys = frequency_sort_keys(customers, &recency_order);
    let ford = stable_order(&fkeys);
    let frequency_order = compose_orders(&recency_order, &ford);
    proof {
        lemma_compose_permutation(recency_order@, ford@);
    }
    let mkeys = monetary_sort_keys(monetary, &frequency_order);
    let mord = stable_order(&mkeys);
    let monetary_order = compose_orders(&frequency_order, &mord);
    proof {
        lemma_compose_permutation(frequency_order@, mord@);
    }
    let recency = scores_from(&recency_order);
    let frequency = scores_from(&frequency_order);
    let monetary_scores = scores_from(&monetary_order);
    let scores = RfmScores {
        recency_order,
        frequency_order,
        monetary_order,
        recency,
        frequency,
        monetary: monetary_scores,
    };
    assert(rfm_scored(customers@, monetary@, scores, ford@, mord@));
    scores
}

/// The position of customer `c` in a ranking.
pub open spec fn position_in(order: Seq<usize>, c: usize) -> int {
    choose|p: int| 0 <= p < order.len() && order[p] == c
}

/// A customer whose latest purchase is strictly later than another's gets a
/// recency score no lower than the other's.
pub proof fn lemma_recency_monotone(customers: Seq<CustomerSummary>, monetary: Seq<u64>, s: RfmScores, fo: Seq<usize>, mo: Seq<usize>, i: usize, j: usize)
    requires
        rfm_scored(customers, monetary, s, fo, mo),
        i < customers.len(),
        j < customers.len(),
        text_le(customers[j as int].last_date@, customers[i as int].last_date@),
        customers[i as int].last_date@ != customers[j as int].last_date@,
    ensures
        s.recency@[i as int] >= s.recency@[j as int],
{
    let ord = s.recency_order@;
    let keys = recency_keys(customers);
    let n = customers.len() as int;
    assert(ord.contains(i));
    assert(ord.contains(j));
    let pi = choose|p: int| 0 <= p < n && ord[p] == i;
    let pj = choose|p: int| 0 <= p < n && ord[p] == j;
    if pj < pi {
        assert(goes_before(keys, ord[pj] as int, ord[pi] as int));
        assert(text_le(customers[i as int].last_date@, customers[j as int].last_date@));
        crate::order::lemma_text_antisym(customers[i as int].last_date@, customers[j as int].last_date@);
    }
    assert(pi <= pj);
    assert(n / 3 <= (2 * n) / 3);
}

/// A customer with strictly more purchases than another gets a frequency
/// score no lower than the other's.
pub proof fn lemma_frequency_monotone(customers: Seq<CustomerSummary>, monetary: Seq<u64>, s: RfmScores, fo: Seq<usize>, mo: Seq<usize>, i: usize, j: usize)
    requires
        rfm_scored(customers, monetary, s, fo, mo),
        customers.len() <= usize::MAX,
        i < customers.len(),
        j < customers.len(),
        customers[i as int].purchases.rows@.len() > customers[j as int].purchases.rows@.len(),
        customers[i as int].purchases.rows@.len() <= u64::MAX,
    ensures
        s.frequency@[i as int] >= s.frequency@[j as int],
{
    let r = s.recency_order@;
    let n = customers.len() as int;
    let keys = frequency_keys(customers, r);
    lemma_compose_permutation(r, fo);
    let f = s.frequency_order@;
    assert(f.contains(i));
    assert(f.contains(j));
    let pi = choose|p: int| 0 <= p < n && f[p] == i;
    let pj = choose|p: int| 0 <= p < n && f[p] == j;
    if pj < pi {
        assert(goes_before(keys, fo[pj] as int, fo[pi] as int));
        assert(fo[pj] < keys.len() && fo[pi] < keys.len());
        assert(f[pj] == r[fo[pj] as int]);
        assert(f[pi] == r[fo[pi] as int]);
        assert(keys[fo[pj] as int] == HighFirst(customers[j as int].purchases.rows@.len() as u64));
        assert(keys[fo[pi] as int] == HighFirst(customers[i as int].purchases.rows@.len() as u64));
    }
    assert(pi <= pj);
    assert(n / 3 <= (2 * n) / 3);
}

/// A customer with a strictly higher monetary key than another gets a
/// monetary score no lower than the other's.
pub proof fn lemma_monetary_monotone(customers: Seq<CustomerSummary>, monetary: Seq<u64>, s: RfmScores, fo: Seq<usize>, mo: Seq<usize>, i: usize, j: usize)
    requires
        rfm_scored(customers, monetary, s, fo, mo),
        customers.len() <= usize::MAX,
        monetary.len() == customers.len(),
        i < customers.len(),
        j < customers.len(),
        monetary[i as int] > monetary[j as int],
    ensures
        s.monetary@[i as int] >= s.monetary@[j as int],
{
    let r = s.recency_order@;
    let n = customers.len() as int;
    lemma_compose_permutation(r, fo);
    let f = s.frequency_order@;
    let keys = monetary_keys_in(monetary, f);
    lemma_compose_permutation(f, mo);
    let m = s.monetary_order@;
    assert(m.contains(i));
    assert(m.contains(j));
    let pi = choose|p: int| 0 <= p < n && m[p] == i;
    let pj = choose|p: int| 0 <= p < n && m[p] == j;
    if pj < pi {
        assert(goes_before(keys, mo[pj] as int, mo[pi] as int));
        assert(mo[pj] < keys.len() && mo[pi] < keys.len());
        assert(m[pj] == f[mo[pj] as int]);
        assert(m[pi] == f[mo[pi] as int]);
        assert(keys[mo[pj] as int] == HighFirst(monetary[j as int]));
        assert(keys[mo[pi] as int] == HighFirst(monetary[i as int]));
    }
    assert(pi <= pj);
    assert(n / 3 <= (2 * n) / 3);
}

// ---------------------------------------------------------------------------
// Segments
// ---------------------------------------------------------------------------

/// The segments of customers by total score.
#[derive(PartialEq, Eq, Structural, Clone, Copy, Debug)]
pub enum RfmSegment {
    Loyal,
    Stable,
    AtRisk,
    Hibernating,
}

/// The segment of a total score (the sum of the three scores).
pub open spec fn segment_for(total: int) -> RfmSegment {
    if total >= 8 {
        RfmSegment::Loyal
    } else if total >= 6 {
        RfmSegment::Stable
    } else if total >= 4 {
        RfmSegment::AtRisk
    } else {
        RfmSegment::Hibernating
    }
}

/// The display name of a segment.
pub open spec fn segment_name(segment: RfmSegment) -> Seq<char> {
    match segment {
        RfmSegment::Loyal => "優良顧客 (Loyal)"@,
        RfmSegment::Stable => "安定顧客 (Stable)"@,
        RfmSegment::AtRisk => "離反注意 (At Risk)"@,
        RfmSegment::Hibernating => "休眠顧客 (Hibernating)"@,
    }
}

impl RfmSegment {
    /// The segment of a total score.
    pub fn from_total(total: u8) -> (segment: RfmSegment)
        ensures
            segment == segment_for(total as int),
    {
        if total >= 8 {
            RfmSegment::Loyal
        } else if total >= 6 {
            RfmSegment::Stable
        } else if total >= 4 {
            RfmSegment::AtRisk
        } else {
            RfmSegment::Hibernating
        }
    }

    /// The display name of the segment.
    pub fn name(&self) -> (name: String)
        ensures
            name@ == segment_name(*self),
    {
        match self {
            RfmSegment::Loyal => "優良顧客 (Loyal)".to_owned(),
            RfmSegment::Stable => "安定顧客 (Stable)".to_owned(),
            RfmSegment::AtRisk => "離反注意 (At Risk)".to_owned(),
            RfmSegment::Hibernating => "休眠顧客 (Hibernating)".to_owned(),
        }
    }
}

/// The total score of customer `c`.
pub open spec fn total_score(s: RfmScores, c: int) -> int {
    s.recency@[c] + s.frequency@[c] + s.monetary@[c]
}

/// The segment names of the customers, listed in the monetary ranking.
pub open spec fn segment_keys(s: RfmScores) -> Seq<Option<Seq<char>>> {
    Seq::new(
        s.monetary_order@.len(),
        |p: int| Some(segment_name(segment_for(total_score(s, s.monetary_order@[p] as int)))),
    )
}

/// A segment and its customers, listed in the monetary ranking.
pub struct SegmentGroup {
    pub segment: RfmSegment,
    pub name: String,
    pub members: Vec<usize>,
}

/// `segments` groups the customers by segment: `groups` groups the positions
/// of the monetary ranking by segment name, and each segment lists the
/// customers at its positions.
pub open spec fn segments_from(s: RfmScores, groups: Seq<KeyGroup>, segments: Seq<SegmentGroup>) -> bool {
    &&& is_grouping(segment_keys(s), groups)
    &&& segments.len() == groups.len()
    &&& forall|g: int|
        0 <= g < segments.len() ==> {
            &&& (#[trigger] segments[g]).name@ == groups[g].key@
            &&& segment_name(segments[g].segment) == groups[g].key@
            &&& segments[g].members@ == permuted(s.monetary_order@, groups[g].rows@)
        }
}

/// The number of customers over all segments.
pub open spec fn members_total(segments: Seq<SegmentGroup>) -> nat
    decreases segments.len(),
{
    if segments.len() == 0 {
        0
    } else {
        members_total(segments.drop_last()) + segments.last().members@.len()
    }
}

proof fn lemma_members_total(groups: Seq<KeyGroup>, segments: Seq<SegmentGroup>)
    requires
        segments.len() == groups.len(),
        forall|g: int| 0 <= g < segments.len() ==> (#[trigger] segments[g]).members@.len() == groups[g].rows@.len(),
    ensures
        members_total(segments) == grouped_rows(groups),
    decreases segments.len(),
{
    if segments.len() > 0 {
        lemma_members_total(groups.drop_last(), segments.drop_last());
    }
}

proof fn lemma_all_present(keys: Seq<Option<Seq<char>>>)
    requires
        forall|p: int| 0 <= p < keys.len() ==> #[trigger] keys[p] is Some,
    ensures
        present_count(keys) == keys.len(),
    decreases keys.len(),
{
    if keys.len() > 0 {
        lemma_all_present(keys.drop_last());
    }
}

/// Groups the customers by segment, in order of each segment's first customer
/// in the monetary ranking.
fn rfm_segments(scores: &RfmScores) -> (segments: Vec<SegmentGroup>)
    requires
        crate::order::is_permutation(scores.monetary_order@, scores.monetary_order@.len()),
        scores.recency@.len() == scores.monetary_order@.len(),
        scores.frequency@.len() == scores.monetary_order@.len(),
        scores.monetary@.len() == scores.monetary_order@.len(),
        forall|c: int| 0 <= c < scores.recency@.len() ==> 1 <= #[trigger] scores.recency@[c] <= 3,
        forall|c: int| 0 <= c < scores.frequency@.len() ==> 1 <= #[trigger] scores.frequency@[c] <= 3,
        forall|c: int| 0 <= c < scores.monetary@.len() ==> 1 <= #[trigger] scores.monetary@[c] <= 3,
    ensures
        exists|groups: Seq<KeyGroup>| #[trigger] segments_from(*scores, groups, segments@),
        members_total(segments@) == scores.monetary_order@.len(),
{
    let order = &scores.monetary_order;
    let n = order.len();
    let mut keys: Vec<Option<String>> = Vec::new();
    let mut kinds: Vec<RfmSegment> = Vec::new();
    let mut p: usize = 0;
    while p < n
        invariant
            n == order@.len(),
            order@ == scores.monetary_order@,
            crate::order::is_permutation(order@, n as nat),
            scores.recency@.len() == n,
            scores.frequency@.len() == n,
            scores.monetary@.len() == n,
            forall|c: int| 0 <= c < n ==> 1 <= #[trigger] scores.recency@[c] <= 3,
            forall|c: int| 0 <= c < n ==> 1 <= #[trigger] scores.frequency@[c] <= 3,
            forall|c: int| 0 <= c < n ==> 1 <= #[trigger] scores.monetary@[c] <= 3,
            p <= n,
            keys.deep_view() =~= segment_keys(*scores).take(p as int),
            kinds@.len() == p,
            forall|q: int| 0 <= q < p ==> #[trigger] kinds@[q] == segment_for(total_score(*scores, order@[q] as int)),
        decreases n - p,
    {
        let c = order[p];
        let total = scores.recency[c] + scores.frequency[c] + scores.monetary[c];
        let segment = RfmSegment::from_total(total);
        let ghost before = keys.deep_view();
        let name = segment.name();
        assert(total as int == total_score(*scores, order@[p as int] as int));
        assert(Some(name@) == segment_keys(*scores)[p as int]);
        keys.push(Some(name));
        kinds.push(segment);
        assert(keys.deep_view() =~= before.push(segment_keys(*scores)[p as int]));
        p = p + 1;
    }
    assert(keys.deep_view() =~= segment_keys(*scores));
    let groups = group_by_key(&keys);
    let mut segments: Vec<SegmentGroup> = Vec::new();
    let mut g: usize = 0;
    while g < groups.len()
        invariant
            n == order@.len(),
            order@ == scores.monetary_order@,
            n == segment_keys(*scores).len(),
            is_grouping(segment_keys(*scores), groups@),
            kinds@.len() == n,
            forall|q: int| 0 <= q < n ==> #[trigger] kinds@[q] == segment_for(total_score(*scores, order@[q] as int)),
            g <= groups@.len(),
            segments@.len() == g,
            forall|h: int|
                0 <= h < g ==> {
                    &&& (#[trigger] segments@[h]).name@ == groups@[h].key@
                    &&& segment_name(segments@[h].segment) == groups@[h].key@
                    &&& segments@[h].members@ == permuted(order@, groups@[h].rows@)
                },
        decreases groups@.len() - g,
    {
        let group = &groups[g];
        assert forall|k: int| 0 <= k < group.rows@.len() implies #[trigger] group.rows@[k] < order@.len() by {
            assert(groups@[g as int].rows@[k] < segment_keys(*scores).len());
        }
        let members = compose_orders(order, &group.rows);
        let first = group.rows[0];
        let segment = kinds[first];
        proof {
            assert(groups@[g as int].rows@[0] < n);
            assert(segment_keys(*scores)[first as int] == Some(group.key@));
        }
        segments.push(SegmentGroup { segment, name: group.key.clone(), members });
        g = g + 1;
    }
    proof {
        assert(segments_from(*scores, groups@, segments@));
        lemma_all_present(segment_keys(*scores));
        lemma_members_total(groups@, segments@);
    }
    segments
}

/// Every score is between 1 and 3.
pub proof fn lemma_scores_in_range(order: Seq<usize>, scores: Seq<u8>)
    requires
        order.len() <= usize::MAX,
        crate::order::is_permutation(order, order.len()),
        scored_by(order, scores),
    ensures
        forall|c: int| 0 <= c < scores.len() ==> 1 <= #[trigger] scores[c] <= 3,
{
    assert forall|c: int| 0 <= c < scores.len() implies 1 <= #[trigger] scores[c] <= 3 by {
        let cu = c as usize;
        assert(order.contains(cu));
        let p = choose|p: int| 0 <= p < order.len() && order[p] == cu;
        assert(scores[order[p] as int] == tier(p, order.len() as int));
    }
}

/// Scores and segments of the customers.
pub struct RfmResult {
    pub scores: RfmScores,
    pub segments: Vec<SegmentGroup>,
}

/// Scores the customers (see `rfm_scores`) and groups them into segments by
/// total score, each segment listing its customers in the monetary ranking.
/// `monetary[c]` orders the customers as their total purchase amounts do.
pub fn rfm_analysis(customers: &Vec<CustomerSummary>, monetary: &Vec<u64>) -> (result: RfmResult)
    requires
        monetary@.len() == customers@.len(),
    ensures
        exists|fo: Seq<usize>, mo: Seq<usize>| #[trigger] rfm_scored(customers@, monetary@, result.scores, fo, mo),
        exists|groups: Seq<KeyGroup>| #[trigger] segments_from(result.scores, groups, result.segments@),
        members_total(result.segments@) == customers@.len(),
        forall|c: int| 0 <= c < customers@.len() ==> 1 <= #[trigger] result.scores.recency@[c] <= 3,
        forall|c: int| 0 <= c < customers@.len() ==> 1 <= #[trigger] result.scores.frequency@[c] <= 3,
        forall|c: int| 0 <= c < customers@.len() ==> 1 <= #[trigger] result.scores.monetary@[c] <= 3,
{
    let n = customers.len();
    let scores = rfm_scores(customers, monetary);
    proof {
        lemma_scores_in_range(scores.recency_order@, scores.recency@);
        lemma_scores_in_range(scores.frequency_order@, scores.frequency@);
        lemma_scores_in_range(scores.monetary_order@, scores.monetary@);
    }
    let segments = rfm_segments(&scores);
    let result = RfmResult { scores, segments };
    proof {
        let (fo, mo) = choose|fo: Seq<usize>, mo: Seq<usize>| #[trigger] rfm_scored(customers@, monetary@, result.scores, fo, mo);
        assert(rfm_scored(customers@, monetary@, result.scores, fo, mo));
        let groups = choose|groups: Seq<KeyGroup>| #[trigger] segments_from(result.scores, groups, result.segments@);
        assert(segments_from(result.scores, groups, result.segments@));
    }
    result
}

} // verus!
