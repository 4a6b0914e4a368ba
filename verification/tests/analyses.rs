use action_analyzer::abc::{analyze_abc, classify, AbcRank};
use action_analyzer::anomaly::{anomalies_latest_first, anomaly_customers};
use action_analyzer::basket::{analyze_basket, collect_baskets};
use action_analyzer::cluster::{age_band, analyze_cluster, cluster_name, cluster_traits, contains_text};
use action_analyzer::master::{load_master, uses_master, ItemMaster};
use action_analyzer::rfm::{rfm_analysis, rfm_customers, RfmSegment};
use action_analyzer::rows::{count_skipped, CustomerProfile, CustomerPurchase, DatedItem, SaleLine};
use action_analyzer::trend::trend_split;

fn sale(t: &str, i: &str) -> Option<SaleLine> {
    Some(SaleLine { transaction_id: t.to_string(), item_id: i.to_string() })
}

fn purchase(c: &str, d: &str) -> Option<CustomerPurchase> {
    Some(CustomerPurchase { customer_id: c.to_string(), purchase_date: d.to_string() })
}

fn dated(d: &str, i: &str) -> Option<DatedItem> {
    Some(DatedItem { purchase_date: d.to_string(), item_id: i.to_string() })
}

fn profile(c: &str, age: u8, region: &str) -> Option<CustomerProfile> {
    Some(CustomerProfile {
        customer_id: c.to_string(),
        age,
        region: region.to_string(),
        industry: "retail".to_string(),
    })
}

fn sales_rows() -> Vec<Option<SaleLine>> {
    vec![
        sale("t1", "A"),
        sale("t1", "B"),
        sale("t1", "C"),
        sale("t2", "A"),
        sale("t2", "B"),
        sale("t3", "B"),
        sale("t3", "C"),
        sale("t4", "A"),
        sale("t4", "B"),
        None,
    ]
}

#[test]
fn basket_rules_from_sales() {
    let master = load_master(b"item_id,item_name\nA,Apple\nC,Cherry\n");
    let report = analyze_basket(&sales_rows(), &master);
    assert_eq!(report.total_rows, 10);
    assert_eq!(report.skipped_rows, 1);
    assert_eq!(report.transaction_count, 4);
    assert_eq!(report.rules.len(), 2);
    let r0 = &report.rules[0];
    assert_eq!((r0.item_a.as_str(), r0.item_b.as_str()), ("A", "B"));
    assert_eq!((r0.name_a.as_str(), r0.name_b.as_str()), ("Apple", "B"));
    assert_eq!((r0.support, r0.count_a, r0.count_b), (3, 3, 4));
    let r1 = &report.rules[1];
    assert_eq!((r1.item_a.as_str(), r1.item_b.as_str()), ("C", "B"));
    assert_eq!((r1.name_a.as_str(), r1.name_b.as_str()), ("Cherry", "B"));
    assert_eq!((r1.support, r1.count_a, r1.count_b), (2, 2, 4));
}

#[test]
fn basket_drops_pairs_below_minimum_support() {
    let rows = vec![sale("t1", "A"), sale("t1", "B"), sale("t2", "A"), sale("t2", "C"), sale("t3", "A"), sale("t3", "C")];
    let report = analyze_basket(&rows, &ItemMaster::empty());
    assert_eq!(report.rules.len(), 1);
    assert_eq!((report.rules[0].item_a.as_str(), report.rules[0].item_b.as_str()), ("C", "A"));
    assert_eq!(report.rules[0].support, 2);
}

#[test]
fn basket_tie_leads_with_smaller_item() {
    let rows = vec![sale("t1", "Y"), sale("t1", "X"), sale("t2", "X"), sale("t2", "Y")];
    let report = analyze_basket(&rows, &ItemMaster::empty());
    assert_eq!(report.rules.len(), 1);
    assert_eq!((report.rules[0].item_a.as_str(), report.rules[0].item_b.as_str()), ("X", "Y"));
}

#[test]
fn basket_keeps_ten_strongest_rules() {
    let mut rows = Vec::new();
    for t in ["t1", "t2"] {
        for item in ["a", "b", "c", "d", "e", "f"] {
            rows.push(sale(t, item));
        }
    }
    // a weaker rule: g and h bought together twice, each of them five times
    for t in ["t3", "t4"] {
        rows.push(sale(t, "g"));
        rows.push(sale(t, "h"));
    }
    for t in ["t5", "t6", "t7"] {
        rows.push(sale(t, "g"));
    }
    for t in ["t8", "t9", "t10"] {
        rows.push(sale(t, "h"));
        rows.push(sale(t, "h"));
    }
    let report = analyze_basket(&rows, &ItemMaster::empty());
    assert_eq!(report.rules.len(), 10);
    assert_eq!(report.transaction_count, 10);
    for rule in &report.rules {
        assert_eq!(rule.support, rule.count_a);
        assert!(rule.item_a != "h" && rule.item_b != "h");
    }
}

#[test]
fn basket_items_counted_once_per_transaction() {
    let rows = vec![sale("t1", "A"), sale("t1", "A"), sale("t1", "B"), sale("t2", "B")];
    let baskets = collect_baskets(&rows);
    assert_eq!(baskets.len(), 2);
    assert_eq!(baskets[0].items, vec!["A".to_string(), "B".to_string()]);
    assert_eq!(baskets[1].items, vec!["B".to_string()]);
}

#[test]
fn abc_ranks_by_cumulative_share() {
    let mut rows = Vec::new();
    for (item, n) in [("A", 5), ("B", 3), ("C", 1), ("D", 1)] {
        for _ in 0..n {
            rows.push(sale("t", item));
        }
    }
    rows.push(None);
    let master = load_master(b"id,name\nB,Banana\n");
    let report = analyze_abc(&rows, &master);
    assert_eq!(report.total_rows, 11);
    assert_eq!(report.skipped_rows, 1);
    assert_eq!(report.total_count, 10);
    let got: Vec<(String, String, usize, usize, AbcRank)> = report
        .items
        .iter()
        .map(|e| (e.item_id.clone(), e.item_name.clone(), e.count, e.cumulative_count, e.rank))
        .collect();
    assert_eq!(
        got,
        vec![
            ("A".to_string(), "A".to_string(), 5, 5, AbcRank::A),
            ("B".to_string(), "Banana".to_string(), 3, 8, AbcRank::B),
            ("C".to_string(), "C".to_string(), 1, 9, AbcRank::B),
            ("D".to_string(), "D".to_string(), 1, 10, AbcRank::C),
        ]
    );
}

#[test]
fn abc_class_limits_are_inclusive() {
    assert_eq!(classify(7, 10), AbcRank::A);
    assert_eq!(classify(8, 10), AbcRank::B);
    assert_eq!(classify(9, 10), AbcRank::B);
    assert_eq!(classify(91, 100), AbcRank::C);
    assert_eq!(classify(0, 0), AbcRank::A);
    assert_eq!(AbcRank::B.label(), "B");
}

#[test]
fn abc_of_no_rows_is_empty() {
    let report = analyze_abc(&vec![None, None], &ItemMaster::empty());
    assert!(report.items.is_empty());
    assert_eq!(report.total_count, 0);
    assert_eq!(report.skipped_rows, 2);
}

#[test]
fn rfm_scores_and_segments() {
    let rows = vec![
        purchase("c1", "2024-01-05"),
        purchase("c2", "2024-03-01"),
        purchase("c1", "2024-02-01"),
        None,
        purchase("c3", "2024-01-01"),
        purchase("c3", "2024-01-02"),
        purchase("c3", "2024-01-03"),
    ];
    let table = rfm_customers(&rows);
    assert_eq!(table.total_rows, 7);
    assert_eq!(table.skipped_rows, 1);
    let ids: Vec<&str> = table.customers.iter().map(|c| c.purchases.key.as_str()).collect();
    assert_eq!(ids, vec!["c1", "c2", "c3"]);
    assert_eq!(table.customers[0].last_date, "2024-02-01");
    assert_eq!(table.customers[0].purchases.rows, vec![0, 2]);
    assert_eq!(table.customers[2].purchases.rows, vec![4, 5, 6]);

    let result = rfm_analysis(&table.customers, &vec![100, 300, 200]);
    assert_eq!(result.scores.recency_order, vec![1, 0, 2]);
    assert_eq!(result.scores.frequency_order, vec![2, 0, 1]);
    assert_eq!(result.scores.monetary_order, vec![1, 2, 0]);
    assert_eq!(result.scores.recency, vec![2, 3, 1]);
    assert_eq!(result.scores.frequency, vec![2, 1, 3]);
    assert_eq!(result.scores.monetary, vec![1, 3, 2]);
    assert_eq!(result.segments.len(), 2);
    assert_eq!(result.segments[0].segment, RfmSegment::Stable);
    assert_eq!(result.segments[0].name, "安定顧客 (Stable)");
    assert_eq!(result.segments[0].members, vec![1, 2]);
    assert_eq!(result.segments[1].segment, RfmSegment::AtRisk);
    assert_eq!(result.segments[1].members, vec![0]);
}

#[test]
fn rfm_segment_thresholds() {
    assert_eq!(RfmSegment::from_total(9), RfmSegment::Loyal);
    assert_eq!(RfmSegment::from_total(8), RfmSegment::Loyal);
    assert_eq!(RfmSegment::from_total(7), RfmSegment::Stable);
    assert_eq!(RfmSegment::from_total(6), RfmSegment::Stable);
    assert_eq!(RfmSegment::from_total(5), RfmSegment::AtRisk);
    assert_eq!(RfmSegment::from_total(4), RfmSegment::AtRisk);
    assert_eq!(RfmSegment::from_total(3), RfmSegment::Hibernating);
    assert_eq!(RfmSegment::Loyal.name(), "優良顧客 (Loyal)");
    assert_eq!(RfmSegment::Hibernating.name(), "休眠顧客 (Hibernating)");
}

#[test]
fn rfm_score_tiers_by_thirds() {
    // six customers, one purchase each, on distinct dates
    let dates = ["2024-01-06", "2024-01-05", "2024-01-04", "2024-01-03", "2024-01-02", "2024-01-01"];
    let rows: Vec<Option<CustomerPurchase>> =
        dates.iter().enumerate().map(|(i, d)| purchase(&format!("c{}", i), d)).collect();
    let table = rfm_customers(&rows);
    let result = rfm_analysis(&table.customers, &vec![6, 5, 4, 3, 2, 1]);
    assert_eq!(result.scores.recency, vec![3, 3, 2, 2, 1, 1]);
    assert_eq!(result.scores.monetary, vec![3, 3, 2, 2, 1, 1]);
    // all frequencies tie: the frequency ranking keeps the recency ranking
    assert_eq!(result.scores.frequency_order, result.scores.recency_order);
    assert_eq!(result.segments[0].segment, RfmSegment::Loyal);
    assert_eq!(result.segments[0].members, vec![0, 1]);
}

#[test]
fn rfm_of_no_customers_is_empty() {
    let table = rfm_customers(&vec![None]);
    assert!(table.customers.is_empty());
    let result = rfm_analysis(&table.customers, &vec![]);
    assert!(result.segments.is_empty());
}

#[test]
fn trend_splits_sorted_rows_in_half() {
    let rows = vec![
        dated("2024-02-01", "A"),
        dated("2024-01-01", "B"),
        None,
        dated("2024-01-15", "A"),
        dated("2024-03-01", "B"),
        dated("2024-01-15", "C"),
    ];
    let master = load_master(b"id,name\nA,Apple\n");
    let split = trend_split(&rows, &master);
    assert_eq!(split.total_rows, 6);
    assert_eq!(split.skipped_rows, 1);
    assert_eq!(split.sorted_rows, vec![1, 3, 5, 0, 4]);
    assert_eq!(split.past_count, 2);
    assert_eq!(split.items.len(), 3);
    assert_eq!(split.items[0].item_id, "B");
    assert_eq!(split.items[0].past_rows, vec![1]);
    assert_eq!(split.items[0].recent_rows, vec![4]);
    assert_eq!(split.items[1].item_id, "A");
    assert_eq!(split.items[1].item_name, "Apple");
    assert_eq!(split.items[1].past_rows, vec![3]);
    assert_eq!(split.items[1].recent_rows, vec![0]);
    assert_eq!(split.items[2].item_id, "C");
    assert!(split.items[2].past_rows.is_empty());
    assert_eq!(split.items[2].recent_rows, vec![5]);
}

#[test]
fn anomalies_latest_first_in_file_order_on_ties() {
    let rows = vec![
        purchase("c1", "2024-01-01"),
        purchase("c2", "2024-03-01"),
        None,
        purchase("c1", "2024-03-01"),
        purchase("c1", "2024-02-01"),
    ];
    let groups = anomaly_customers(&rows);
    assert_eq!(groups.customers.len(), 2);
    assert_eq!(groups.customers[0].rows, vec![0, 3, 4]);
    assert_eq!(groups.customers[1].rows, vec![1]);
    assert_eq!(groups.skipped_rows, 1);
    let flags = vec![true, true, true, true, false];
    assert_eq!(anomalies_latest_first(&rows, &flags), vec![1, 3, 0]);
}

#[test]
fn clusters_by_region_and_age_band() {
    let rows = vec![
        profile("c1", 25, "東京"),
        profile("c2", 45, "大阪"),
        profile("c3", 29, "東京"),
        None,
        profile("c4", 50, "大阪"),
        profile("c5", 30, "大阪"),
    ];
    let report = analyze_cluster(&rows);
    assert_eq!(report.total_rows, 6);
    assert_eq!(report.skipped_rows, 1);
    let got: Vec<(String, usize)> = report.groups.iter().map(|g| (g.cluster_name.clone(), g.size)).collect();
    assert_eq!(
        got,
        vec![
            ("東京・若年層".to_string(), 2),
            ("大阪・ミドル層".to_string(), 2),
            ("大阪・シニア層".to_string(), 1),
        ]
    );
    assert_eq!(report.groups[0].traits, "最新トレンドに敏感です。SNSでの短期キャンペーン告知が有効です📱");
    assert_eq!(report.groups[1].traits, "中核となる顧客層です。定期的なメルマガと、定番商品のセット提案が有効です✉️");
    assert_eq!(
        report.groups[2].traits,
        "単価が高くリピート率が安定しています。カタログやDMでの丁寧なアプローチを続けましょう📮"
    );
}

#[test]
fn cluster_traits_follow_the_name() {
    assert_eq!(age_band(0), "若年層");
    assert_eq!(age_band(29), "若年層");
    assert_eq!(age_band(30), "ミドル層");
    assert_eq!(age_band(49), "ミドル層");
    assert_eq!(age_band(50), "シニア層");
    assert_eq!(age_band(255), "シニア層");
    let name = cluster_name(&"若年層の町".to_string(), 60);
    assert_eq!(name, "若年層の町・シニア層");
    // the name mentions the young band first, so that description wins
    assert_eq!(cluster_traits(&name), "最新トレンドに敏感です。SNSでの短期キャンペーン告知が有効です📱");
    assert!(contains_text("abcabd", "abd"));
    assert!(!contains_text("abcab", "abd"));
    assert!(contains_text("abc", ""));
    assert!(!contains_text("", "a"));
}

#[test]
fn master_later_entries_win() {
    let master = load_master(b"id,name\nA,Apple\nB,Banana\nA,Apricot\nshort\n");
    assert_eq!(master.entries.len(), 3);
    assert_eq!(master.name_of(&"A".to_string()), "Apricot");
    assert_eq!(master.name_of(&"B".to_string()), "Banana");
    assert_eq!(master.name_of(&"Z".to_string()), "Z");
    assert_eq!(ItemMaster::empty().name_of(&"A".to_string()), "A");
}

#[test]
fn master_header_is_not_an_entry() {
    let master = load_master(b"A,Apple\nB,Banana\n");
    assert_eq!(master.entries.len(), 1);
    assert_eq!(master.name_of(&"A".to_string()), "A");
}

#[test]
fn master_path_in_use() {
    assert!(!uses_master(&None));
    assert!(!uses_master(&Some(String::new())));
    assert!(uses_master(&Some("master.csv".to_string())));
}

#[test]
fn skipped_rows_counted() {
    let rows: Vec<Option<u8>> = vec![Some(1), None, None, Some(2)];
    assert_eq!(count_skipped(&rows), 2);
}
