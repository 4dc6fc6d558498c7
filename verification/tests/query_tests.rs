use parser_core::parser::QueryError;
use parser_core::query::{parse_query, QueryKey};

#[test]
fn query_root_array_then_key() {
    assert_eq!(
        parse_query(b"$[0].source"),
        Ok(vec![QueryKey::ArrayIndex(0), QueryKey::ObjectKey(b"source".to_vec())])
    );
}

#[test]
fn query_nested_keys_then_index() {
    assert_eq!(
        parse_query(b"$.a.b[12]"),
        Ok(vec![
            QueryKey::ObjectKey(b"a".to_vec()),
            QueryKey::ObjectKey(b"b".to_vec()),
            QueryKey::ArrayIndex(12),
        ])
    );
}

#[test]
fn query_trims_index_and_key() {
    assert_eq!(
        parse_query(b"$[ 3 ]. k "),
        Ok(vec![QueryKey::ArrayIndex(3), QueryKey::ObjectKey(b"k".to_vec())])
    );
}

#[test]
fn query_root_only_is_empty() {
    assert_eq!(parse_query(b"$"), Ok(vec![]));
    assert_eq!(parse_query(b""), Ok(vec![]));
}

#[test]
fn query_unclosed_index_reads_to_end() {
    assert_eq!(parse_query(b"$[7"), Ok(vec![QueryKey::ArrayIndex(7)]));
}

#[test]
fn query_invalid_index() {
    assert_eq!(parse_query(b"$[x]"), Err(QueryError::InvalidArrayIndex));
    assert_eq!(parse_query(b"$.a[]"), Err(QueryError::InvalidArrayIndex));
    assert_eq!(parse_query(b"$[4294967296]"), Err(QueryError::InvalidArrayIndex));
}

#[test]
fn query_rendered_segments_round_trip() {
    let text = b"$.g[10].c[0].key_1";
    assert_eq!(
        parse_query(text),
        Ok(vec![
            QueryKey::ObjectKey(b"g".to_vec()),
            QueryKey::ArrayIndex(10),
            QueryKey::ObjectKey(b"c".to_vec()),
            QueryKey::ArrayIndex(0),
            QueryKey::ObjectKey(b"key_1".to_vec()),
        ])
    );
}
