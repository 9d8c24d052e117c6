use openqbw::fkgraph::{edges_for, match_score, pick_best, strip_id_suffix};
use openqbw::{fk_graph_stats, FkEdge, SysColumn, SysTableEntry};

#[test]
fn strips_id_h_then_id() {
    assert_eq!(strip_id_suffix("account_id"), Some("account"));
    assert_eq!(strip_id_suffix("contact_id_h"), Some("contact"));
    assert_eq!(strip_id_suffix("name"), None);
    assert_eq!(strip_id_suffix("_id"), Some(""));
}

#[test]
fn exact_match_beats_substring() {
    assert!(match_score("invoice", "abmc_invoice") > match_score("invoice", "abmc_invoice_lineitem"));
}

#[test]
fn no_match_returns_zero() {
    assert_eq!(match_score("zzzz", "abmc_invoice"), 0);
}

#[test]
fn pick_best_returns_best_table() {
    let tables = vec![
        "abmc_invoice".to_string(),
        "abmc_invoice_lineitem".to_string(),
        "abmc_check".to_string(),
    ];
    let (best, score) = pick_best("invoice", &tables);
    assert_eq!(best.as_deref(), Some("abmc_invoice"));
    assert!(score >= 900);
}

#[test]
fn match_score_tiers() {
    assert_eq!(match_score("invoice", "invoice"), 1000);
    assert_eq!(match_score("invoice", "abmc_invoice"), 900);
    assert_eq!(match_score("invoice", "old_invoice"), 700);
    assert_eq!(match_score("invoice", "invoice_item"), 600);
    assert_eq!(match_score("invoice", "my_invoice_item"), 300);
    assert_eq!(match_score("", "anything"), 300);
}

#[test]
fn pick_best_prefers_first_of_equal_scores_and_none_below_any_match() {
    let tables = vec!["x_a".to_string(), "y_a".to_string()];
    let (best, score) = pick_best("a", &tables);
    assert_eq!(best.as_deref(), Some("x_a"));
    assert_eq!(score, 700);
    let (none, zero) = pick_best("zz", &tables);
    assert_eq!(none, None);
    assert_eq!(zero, 0);
}

fn table(tid: u32, name: &str) -> SysTableEntry {
    SysTableEntry {
        table_id: tid,
        name: name.to_owned(),
        magic: [0; 4],
        col_count: None,
        data_root_page: Some(tid),
        last_page: None,
        page_number: 0,
        row_offset: 0,
    }
}

fn column(owner: u32, id: u32, name: &str) -> SysColumn {
    SysColumn {
        name: name.to_owned(),
        owner_object_id: owner,
        column_id: id,
        nulls_flag: 0,
        domain_char: b'I',
        width: 4,
        page_number: 0,
        tag_offset: 0,
    }
}

#[test]
fn edges_for_resolves_columns_and_stats_count_them() {
    let tables = vec![table(10, "abmc_invoice"), table(11, "abmc_customer")];
    let columns = vec![
        column(10, 1, "customer_id"),
        column(10, 2, "memo"),
        column(10, 3, "zzz_id"),
        column(99, 1, "invoice_id"),
    ];
    let edges = edges_for(&tables, &columns);
    assert_eq!(edges.len(), 2);
    let stats = fk_graph_stats(&edges);
    assert_eq!(stats.edges, 2);
    assert_eq!(stats.resolved, 1);
    assert_eq!(stats.strong, 1);
    assert_eq!(edges[1].source_column, "zzz_id");
    assert_eq!(edges[1].target_table, None);
    assert_eq!(edges[1].score, 0);
    let e: &FkEdge = edges.iter().find(|e| e.source_column == "customer_id").unwrap();
    assert_eq!(e.source_table, "abmc_invoice");
    assert_eq!(e.target_table.as_deref(), Some("abmc_customer"));
    assert_eq!(e.stem, "customer");
    assert_eq!(e.score, 900);
}
