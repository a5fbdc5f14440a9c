use lms_server::vector_store::{collection_stats, search_binds, search_sql, SearchFilters};

const BASE: &str = "SELECT v.id, v.embedding, c.chunk_text, c.document_id, d.filename, d.file_type, c.page_number, c.chunk_index, v.created_at\n             FROM vector_embeddings v\n             JOIN document_chunks c ON v.id = c.vector_id\n             JOIN documents d ON c.document_id = d.id\n             WHERE v.workspace_id = ?";

#[test]
fn test_search_filters_default() {
    let filters = SearchFilters::default();
    assert!(filters.document_ids.is_none());
    assert!(filters.file_types.is_none());
    assert!(filters.page_range.is_none());
    assert!(filters.date_range.is_none());
}

#[test]
fn search_query_without_filters() {
    assert_eq!(search_sql(&None), BASE);
    assert_eq!(search_sql(&Some(SearchFilters::default())), BASE);
    assert_eq!(search_binds("ws", &None), vec!["ws".to_string()]);
}

#[test]
fn search_query_with_all_filters() {
    let f = SearchFilters {
        document_ids: Some(vec!["d1".to_string(), "d2".to_string(), "d3".to_string()]),
        file_types: Some(vec!["pdf".to_string()]),
        page_range: Some((2, 15)),
        date_range: Some(("2024-01-01".to_string(), "2024-12-31".to_string())),
    };
    let q = search_sql(&Some(f.clone()));
    let expected = format!(
        "{} AND v.document_id IN (?,?,?) AND d.file_type IN (?) AND c.page_number BETWEEN 2 AND 15 AND v.created_at BETWEEN ? AND ?",
        BASE
    );
    assert_eq!(q, expected);
    assert_eq!(search_binds("ws", &Some(f)), vec!["ws", "d1", "d2", "d3", "pdf", "2024-01-01", "2024-12-31"]);
}

#[test]
fn empty_lists_match_no_row() {
    let f = SearchFilters { document_ids: Some(vec![]), file_types: Some(vec![]), page_range: None, date_range: None };
    let q = search_sql(&Some(f.clone()));
    assert_eq!(q, format!("{} AND v.document_id IN () AND d.file_type IN ()", BASE));
    assert_eq!(search_binds("ws", &Some(f)), vec!["ws"]);
}

#[test]
fn collection_stats_from_count() {
    let s = collection_stats(12);
    assert_eq!(s.vectors_count, 12);
    assert_eq!(s.points_count, 12);
}

#[test]
fn placeholders_match_bound_values() {
    let cases = vec![
        None,
        Some(SearchFilters::default()),
        Some(SearchFilters {
            document_ids: Some(vec!["a".to_string()]),
            file_types: None,
            page_range: Some((1, 999)),
            date_range: None,
        }),
        Some(SearchFilters {
            document_ids: Some(vec!["a".to_string(), "b".to_string()]),
            file_types: Some(vec!["pdf".to_string(), "txt".to_string(), "md".to_string()]),
            page_range: None,
            date_range: Some(("a".to_string(), "b".to_string())),
        }),
        Some(SearchFilters { document_ids: Some(vec![]), file_types: None, page_range: None, date_range: None }),
    ];
    for f in cases {
        let q = search_sql(&f);
        let binds = search_binds("ws", &f);
        assert_eq!(q.matches('?').count(), binds.len());
    }
}
