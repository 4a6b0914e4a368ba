//! Cluster analysis: customers grouped by region and age band.
use vstd::prelude::*;
use crate::grouping::{KeyGroup, is_grouping, group_by_key, size_keys, order_by_size, group_sizes, keys_follow_rows};
use crate::order::{sum_nat, picked};
use crate::order::{is_stable_order, goes_before};
use crate::rows::{CustomerProfile, skipped_in, count_skipped};
use vstd::utf8::encode_utf8;

verus! {

/// Customers younger than this are in the young band.
pub const YOUNG_BELOW: u8 = 30;

/// Customers younger than this (and not young) are in the middle band; older
/// ones are seniors.
pub const MIDDLE_BELOW: u8 = 50;

/// The name of the age band of `age`.
pub open spec fn age_band_name(age: u8) -> Seq<char> {
    if age < YOUNG_BELOW {
        "若年層"@
    } else if age < MIDDLE_BELOW {
        "ミドル層"@
    } else {
        "シニア層"@
    }
}

/// The name of the age band of `age`.
pub fn age_band(age: u8) -> (name: &'static str)
    ensures
        name@ == age_band_name(age),
{
    if age < YOUNG_BELOW {
        "若年層"
    } else if age < MIDDLE_BELOW {
        "ミドル層"
    } else {
        "シニア層"
    }
}

/// The place of a band name in the order young, middle, senior.
pub open spec fn band_place(name: Seq<char>) -> nat {
    if name == "若年層"@ {
        0
    } else if name == "ミドル層"@ {
        1
    } else {
        2
    }
}

/// Every age below `YOUNG_BELOW` is young, every age from `YOUNG_BELOW` up to
/// below `MIDDLE_BELOW` is middle-aged, and every age from `MIDDLE_BELOW` on is
/// senior; the bands' places follow the ages.
pub proof fn lemma_age_band_by_limits(age: u8)
    ensures
        age < YOUNG_BELOW ==> age_band_name(age) == "若年層"@ && band_place(age_band_name(age)) == 0,
        YOUNG_BELOW <= age < MIDDLE_BELOW ==> age_band_name(age) == "ミドル層"@ && band_place(age_band_name(age)) == 1,
        MIDDLE_BELOW <= age ==> age_band_name(age) == "シニア層"@ && band_place(age_band_name(age)) == 2,
{
    reveal_strlit("若年層");
    reveal_strlit("ミドル層");
    reveal_strlit("シニア層");
    assert("シニア層"@ != "若年層"@) by {
        assert("シニア層"@[0] != "若年層"@[0]);
    }
    assert("シニア層"@ != "ミドル層"@) by {
        assert("シニア層"@[0] != "ミドル層"@[0]);
    }
    assert("ミドル層"@ != "若年層"@) by {
        assert("ミドル層"@[0] != "若年層"@[0]);
    }
}

/// An older customer is never in an earlier band than a younger one.
pub proof fn lemma_age_band_monotone(a1: u8, a2: u8)
    requires
        a1 <= a2,
    ensures
        band_place(age_band_name(a1)) <= band_place(age_band_name(a2)),
{
    lemma_age_band_by_limits(a1);
    lemma_age_band_by_limits(a2);
}

/// The cluster of a customer: its region, a separator, and its age band.
pub open spec fn cluster_name_of(region: Seq<char>, age: u8) -> Seq<char> {
    region + "・"@ + age_band_name(age)
}

/// The cluster of a customer.
pub fn cluster_name(region: &String, age: u8) -> (name: String)
    ensures
        name@ == cluster_name_of(region@, age),
{
    let mut name = region.clone();
    name.append("・");
    name.append(age_band(age));
    name
}

/// `hay` holds `needle` as a run of consecutive bytes.
pub open spec fn bytes_contain(hay: Seq<u8>, needle: Seq<u8>) -> bool {
    exists|i: int| 0 <= i && i + needle.len() <= hay.len() && #[trigger] hay.subrange(i, i + needle.len()) == needle
}

/// `text` contains `part` (as `str::contains` finds it: a run of the text's UTF-8 bytes).
pub open spec fn text_contains(text: Seq<char>, part: Seq<char>) -> bool {
    bytes_contain(encode_utf8(text), encode_utf8(part))
}

/// Whether the bytes `needle` occur in `hay` at position `i`.
fn bytes_at(hay: &[u8], needle: &[u8], i: usize) -> (b: bool)
    requires
        i + needle@.len() <= hay@.len(),
    ensures
        b == (hay@.subrange(i as int, i + needle@.len()) == needle@),
{
    let hn = hay.len();
    let mut k: usize = 0;
    while k < needle.len()
        invariant
            hn == hay@.len(),
            i + needle@.len() <= hay@.len(),
            k <= needle@.len(),
            forall|l: int| 0 <= l < k ==> hay@[i + l] == needle@[l],
        decreases needle@.len() - k,
    {
        if hay[i + k] != needle[k] {
            assert(hay@.subrange(i as int, i + needle@.len())[k as int] != needle@[k as int]);
            return false;
        }
        k = k + 1;
    }
    assert(hay@.subrange(i as int, i + needle@.len()) =~= needle@);
    true
}

/// Whether `text` contains `part`.
pub fn contains_text(text: &str, part: &str) -> (b: bool)
    ensures
        b == text_contains(text@, part@),
{
    let hay = text.as_bytes();
    let needle = part.as_bytes();
    if needle.len() > hay.len() {
        return false;
    }
    let last = hay.len() - needle.len();
    let mut i: usize = 0;
    loop
        invariant
            hay@ == encode_utf8(text@),
            needle@ == encode_utf8(part@),
            last == hay@.len() - needle@.len(),
            i <= last,
            forall|j: int| 0 <= j < i ==> #[trigger] hay@.subrange(j, j + needle@.len()) != needle@,
        decreases last - i,
    {
        if bytes_at(hay, needle, i) {
            return true;
        }
        if i == last {
            return false;
        }
        i = i + 1;
    }
}

/// The description of a cluster, chosen by the age band that its name mentions.
pub open spec fn traits_for(name: Seq<char>) -> Seq<char> {
    if text_contains(name, "若年層"@) {
        "最新トレンドに敏感です。SNSでの短期キャンペーン告知が有効です📱"@
    } else if text_contains(name, "シニア層"@) {
        "単価が高くリピート率が安定しています。カタログやDMでの丁寧なアプローチを続けましょう📮"@
    } else {
        "中核となる顧客層です。定期的なメルマガと、定番商品のセット提案が有効です✉️"@
    }
}

/// The description of a cluster.
pub fn cluster_traits(name: &String) -> (traits: String)
    ensures
        traits@ == traits_for(name@),
{
    if contains_text(name.as_str(), "若年層") {
        "最新トレンドに敏感です。SNSでの短期キャンペーン告知が有効です📱".to_owned()
    } else if contains_text(name.as_str(), "シニア層") {
        "単価が高くリピート率が安定しています。カタログやDMでの丁寧なアプローチを続けましょう📮".to_owned()
    } else {
        "中核となる顧客層です。定期的なメルマガと、定番商品のセット提案が有効です✉️".to_owned()
    }
}

/// A cluster of customers.
pub struct ClusterGroup {
    pub cluster_name: String,
    pub size: usize,
    pub traits: String,
}

/// The outcome of a cluster analysis.
pub struct ClusterReport {
    pub groups: Vec<ClusterGroup>,
    pub skipped_rows: usize,
    pub total_rows: usize,
}

/// The clusters of the rows, `None` for rows that could not be read.
pub open spec fn cluster_keys(rows: Seq<Option<CustomerProfile>>) -> Seq<Option<Seq<char>>> {
    Seq::new(
        rows.len(),
        |r: int|
            match rows[r] {
                Some(row) => Some(cluster_name_of(row.region@, row.age)),
                None => None,
            },
    )
}

/// The sizes of the clusters.
pub open spec fn cluster_sizes(groups: Seq<ClusterGroup>) -> Seq<nat> {
    Seq::new(groups.len(), |p: int| groups[p].size as nat)
}

/// `report` lists the clusters of `rows`, given the rows' grouping by cluster
/// and the stable order of the groups by size, largest first.
pub open spec fn cluster_report_from(rows: Seq<Option<CustomerProfile>>, report: ClusterReport, groups: Seq<KeyGroup>, ord: Seq<usize>) -> bool {
    &&& is_grouping(cluster_keys(rows), groups)
    &&& is_stable_order(size_keys(groups), ord)
    &&& report.groups@.len() == groups.len()
    &&& forall|p: int|
        0 <= p < report.groups@.len() ==> {
            &&& (#[trigger] report.groups@[p]).cluster_name@ == groups[ord[p] as int].key@
            &&& report.groups@[p].size == groups[ord[p] as int].rows@.len()
            &&& report.groups@[p].traits@ == traits_for(groups[ord[p] as int].key@)
        }
}

/// Groups the customers by region and age band and lists the clusters,
/// largest first (ties in order of first appearance).
pub fn analyze_cluster(rows: &Vec<Option<CustomerProfile>>) -> (report: ClusterReport)
    ensures
        exists|groups: Seq<KeyGroup>, ord: Seq<usize>| #[trigger] cluster_report_from(rows@, report, groups, ord),
        report.total_rows == rows@.len(),
        report.skipped_rows == skipped_in(rows@),
        forall|p: int, q: int|
            0 <= p < q < report.groups@.len() ==> (#[trigger] report.groups@[p]).size >= (#[trigger] report.groups@[q]).size,
        sum_nat(cluster_sizes(report.groups@)) + report.skipped_rows == report.total_rows,
{
    let mut keys: Vec<Option<String>> = Vec::new();
    let mut i: usize = 0;
    while i < rows.len()
        invariant
            i <= rows@.len(),
            keys.deep_view() =~= cluster_keys(rows@).take(i as int),
        decreases rows@.len() - i,
    {
        let ghost before = keys.deep_view();
        match &rows[i] {
            Some(row) => keys.push(Some(cluster_name(&row.region, row.age))),
            None => keys.push(None),
        }
        assert(keys.deep_view() =~= before.push(cluster_keys(rows@)[i as int]));
        i = i + 1;
    }
    assert(keys.deep_view() =~= cluster_keys(rows@));
    let groups = group_by_key(&keys);
    let ord = order_by_size(&groups);
    let mut out: Vec<ClusterGroup> = Vec::new();
    let mut p: usize = 0;
    while p < ord.len()
        invariant
            is_stable_order(size_keys(groups@), ord@),
            p <= ord@.len(),
            out@.len() == p,
            forall|q: int|
                0 <= q < p ==> {
                    &&& (#[trigger] out@[q]).cluster_name@ == groups@[ord@[q] as int].key@
                    &&& out@[q].size == groups@[ord@[q] as int].rows@.len()
                    &&& out@[q].traits@ == traits_for(groups@[ord@[q] as int].key@)
                },
        decreases ord@.len() - p,
    {
        let group = &groups[ord[p]];
        out.push(ClusterGroup {
            cluster_name: group.key.clone(),
            size: group.rows.len(),
            traits: cluster_traits(&group.key),
        });
        p = p + 1;
    }
    let report = ClusterReport { groups: out, skipped_rows: count_skipped(rows), total_rows: rows.len() };
    proof {
        let ks = cluster_keys(rows@);
        assert(keys_follow_rows(ks, rows@));
        crate::grouping::lemma_present_and_skipped(ks, rows@);
        crate::grouping::lemma_grouped_rows_sum(groups@);
        assert(cluster_sizes(report.groups@) =~= picked(group_sizes(groups@), ord@));
        crate::order::lemma_sum_picked(group_sizes(groups@), ord@);
        assert(cluster_report_from(rows@, report, groups@, ord@));
        assert forall|p: int, q: int| 0 <= p < q < report.groups@.len() implies (#[trigger] report.groups@[p]).size
            >= (#[trigger] report.groups@[q]).size by {
            assert(goes_before(size_keys(groups@), ord@[p] as int, ord@[q] as int));
            assert(ord@[p] < groups@.len() && ord@[q] < groups@.len());
        }
    }
    report
}

} // verus!
