use action_analyzer::order::{order_high_first, str_equal, string_le, stable_order, HighFirst, TextDescending};
use action_analyzer::plugin::{plugin_failure_message, plugin_root, PluginManifest};
use action_analyzer::samples::{all_sample_kinds, SampleKind};

#[test]
fn stable_order_keeps_ties_in_place() {
    let keys = vec![HighFirst(1), HighFirst(3), HighFirst(1), HighFirst(3), HighFirst(2)];
    assert_eq!(stable_order(&keys), vec![1, 3, 4, 0, 2]);
    assert_eq!(order_high_first(&vec![5, 7, 5]), vec![1, 0, 2]);
    assert!(order_high_first(&vec![]).is_empty());
}

#[test]
fn text_order_is_byte_order() {
    assert!(string_le(&"2024-01-09".to_string(), &"2024-01-10".to_string()));
    assert!(!string_le(&"b".to_string(), &"abc".to_string()));
    assert!(string_le(&"ab".to_string(), &"abc".to_string()));
    assert!(string_le(&"".to_string(), &"".to_string()));
    assert!(string_le(&"Z".to_string(), &"a".to_string()));
    let keys = vec![
        TextDescending("2024-01-02".to_string()),
        TextDescending("2024-03-01".to_string()),
        TextDescending("2024-01-02".to_string()),
    ];
    assert_eq!(stable_order(&keys), vec![1, 0, 2]);
    assert!(str_equal("rfm", "rfm"));
    assert!(!str_equal("rfm", "rf"));
}

#[test]
fn plugin_invocation() {
    let manifest = PluginManifest {
        id: "basket".to_string(),
        name: "Basket".to_string(),
        command: "python3".to_string(),
        args: vec!["main.py".to_string(), "--fast".to_string()],
    };
    assert_eq!(
        manifest.invocation_args(&"/tmp/sales.csv".to_string()),
        vec!["main.py".to_string(), "--fast".to_string(), "/tmp/sales.csv".to_string()]
    );
    assert_eq!(plugin_root(true), "plugins");
    assert_eq!(plugin_root(false), "../plugins");
    assert_eq!(plugin_failure_message("boom"), "プラグイン内部エラー: boom");
}

#[test]
fn sample_kinds_by_name() {
    assert_eq!(SampleKind::from_name("sales"), SampleKind::Sales);
    assert_eq!(SampleKind::from_name("master"), SampleKind::Master);
    assert_eq!(SampleKind::from_name("rfm"), SampleKind::Rfm);
    assert_eq!(SampleKind::from_name("trend"), SampleKind::Trend);
    assert_eq!(SampleKind::from_name("anomaly"), SampleKind::Anomaly);
    assert_eq!(SampleKind::from_name("cluster"), SampleKind::Cluster);
    assert_eq!(SampleKind::from_name("other"), SampleKind::Sales);
    assert_eq!(SampleKind::from_name(""), SampleKind::Sales);
    assert_eq!(SampleKind::Trend.file_name(), "sample_trend.csv");
    let names: Vec<&str> = all_sample_kinds().iter().map(|k| k.file_name()).collect();
    assert_eq!(
        names,
        vec![
            "sample_sales.csv",
            "sample_master.csv",
            "sample_rfm.csv",
            "sample_trend.csv",
            "sample_anomaly.csv",
            "sample_cluster.csv",
        ]
    );
}

#[test]
fn stable_order_matches_a_stable_sort() {
    let mut seed: u64 = 12345;
    let mut keys: Vec<u64> = Vec::new();
    for _ in 0..500 {
        seed = seed.wrapping_mul(6364136223846793005).wrapping_add(1442695040888963407);
        keys.push((seed >> 33) % 17);
    }
    let mut expected: Vec<usize> = (0..keys.len()).collect();
    expected.sort_by(|&a, &b| keys[b].cmp(&keys[a]));
    assert_eq!(order_high_first(&keys), expected);
    let texts: Vec<TextDescending> = keys.iter().map(|k| TextDescending(format!("d{}", k))).collect();
    let mut expected_text: Vec<usize> = (0..keys.len()).collect();
    expected_text.sort_by(|&a, &b| format!("d{}", keys[b]).cmp(&format!("d{}", keys[a])));
    assert_eq!(stable_order(&texts), expected_text);
}
