use parser_core::parser::{classify_primitive, run_query, JsonPrimitive, Parser, QueryError};
use parser_core::query::QueryKey;

const COMPLEX: &str = r#"{"a1": "a\\", "b1": "string with \\\"so called\\\\\" double quotes", "a":null,"b":123,"c":24562472.12346757,"d":"a string","e":[1,2,3],"f":["a","b","c"],"g":{"a":{"b":1},"c":[{"x":1},{"y":2}],"d":[[1,2],[3,4]]}}"#;

fn complex_structural() -> Vec<u32> {
    let mut v = vec![
        0, 5, 12, 18, 67, 72, 77, 81, 85, 89, 107, 111, 122, 126, 127, 129, 131, 133, 134, 138,
        139, 143, 147, 151, 152, 156, 157, 161, 162, 166, 168, 169, 173, 174, 175, 179, 181, 182,
        183, 187, 189, 190, 191, 195, 196, 197, 199, 201, 202, 203, 205, 207, 208, 209, 210,
    ];
    v.extend(std::iter::repeat(0).take(160));
    v
}

fn complex_pairs() -> Vec<u32> {
    let mut v = vec![
        0, 0, 0, 0, 0, 0, 0, 0, 0, 0, 0, 0, 0, 0, 17, 0, 0, 0, 0, 0, 23, 0, 0, 0, 0, 0, 53, 0, 30,
        0, 0, 0, 0, 41, 36, 0, 0, 0, 40, 0, 0, 0, 0, 0, 52, 47, 0, 0, 0, 51,
    ];
    v.extend(std::iter::repeat(0).take(160));
    v
}

fn complex(query: &str) -> Result<Vec<u8>, QueryError> {
    run_query(COMPLEX, complex_pairs(), complex_structural(), query)
}

fn parser(json: &str, structural: Vec<u32>, pairs: Vec<u32>) -> Parser {
    Parser {
        json_string: json.as_bytes().to_vec(),
        structural_indexes: structural,
        open_close_pairs: pairs,
        current_structural_index: 0,
    }
}

#[test]
fn complex_top_level_values() {
    assert_eq!(complex("$.b"), Ok(b"123".to_vec()));
    assert_eq!(complex("$.a"), Ok(b"null".to_vec()));
    assert_eq!(complex("$.c"), Ok(b"24562472.12346757".to_vec()));
    assert_eq!(complex("$.d"), Ok(b"\"a string\"".to_vec()));
    assert_eq!(complex("$.a1"), Ok(br#""a\\""#.to_vec()));
}

#[test]
fn complex_nested_paths() {
    assert_eq!(complex("$.g.c[1].y"), Ok(b"2".to_vec()));
    assert_eq!(complex("$.g.c[0].x"), Ok(b"1".to_vec()));
    assert_eq!(complex("$.g.d[1][0]"), Ok(b"3".to_vec()));
    assert_eq!(complex("$.g.d[0][1]"), Ok(b"2".to_vec()));
    assert_eq!(complex("$.g.a.b"), Ok(b"1".to_vec()));
    assert_eq!(complex("$.e[2]"), Ok(b"3".to_vec()));
    assert_eq!(complex("$.f[1]"), Ok(b"\"b\"".to_vec()));
}

#[test]
fn nested_object_lookup() {
    // {"a":{"b":2}}: structural { @0, : @4, { @5, : @9, } @11, } @12
    let r = run_query(r#"{"a":{"b":2}}"#, vec![5, 0, 4, 0, 0, 0], vec![0, 4, 5, 9, 11, 12], "$.a.b");
    assert_eq!(r, Ok(b"2".to_vec()));
}

#[test]
fn array_of_objects_lookup() {
    let json = r#"[{"a":1},{"b":2}]"#;
    let s = vec![0, 1, 5, 7, 8, 9, 13, 15, 16];
    let p = vec![8, 3, 0, 0, 0, 7, 0, 0, 0];
    assert_eq!(run_query(json, p.clone(), s.clone(), "$[1].b"), Ok(b"2".to_vec()));
    assert_eq!(run_query(json, p.clone(), s.clone(), "$[0].a"), Ok(b"1".to_vec()));
    assert_eq!(
        run_query(json, p, s, "$[1].a"),
        Err(QueryError::ExpectedColon { found: b']' })
    );
}

#[test]
fn flat_array_lookup() {
    let s = vec![0, 2, 4, 6];
    let p = vec![3, 0, 0, 0];
    assert_eq!(run_query("[1,2,3]", p.clone(), s.clone(), "$[0]"), Ok(b"1".to_vec()));
    assert_eq!(run_query("[1,2,3]", p.clone(), s.clone(), "$[2]"), Ok(b"3".to_vec()));
    assert_eq!(
        run_query("[1,2,3]", p, s, "$[5]"),
        Err(QueryError::UnexpectedStructural { found: b']' })
    );
}

#[test]
fn structural_chars_inside_strings_stay_in_the_key() {
    // {"a,b:c":1}: structural { @0, : @8, } @10
    let r = run_query(r#"{"a,b:c":1}"#, vec![2, 0, 0], vec![0, 8, 10], "$.a,b:c");
    assert_eq!(r, Ok(b"1".to_vec()));
}

#[test]
fn wrong_container_kinds() {
    let s = vec![0, 2, 4, 6];
    let p = vec![3, 0, 0, 0];
    assert_eq!(
        run_query("[1,2,3]", p, s, "$.a"),
        Err(QueryError::ExpectedBrace { found: b'[' })
    );
    assert_eq!(
        run_query(r#"{"a":1}"#, vec![2, 0, 0], vec![0, 4, 6], "$[0]"),
        Err(QueryError::ExpectedBracket { found: b'{' })
    );
}

#[test]
fn empty_query_has_no_value() {
    assert_eq!(
        run_query(r#"{"a":1}"#, vec![2, 0, 0], vec![0, 4, 6], "$"),
        Err(QueryError::NoPrecedingStructural)
    );
}

#[test]
fn invalid_index_in_query() {
    assert_eq!(
        run_query(r#"{"a":1}"#, vec![2, 0, 0], vec![0, 4, 6], "$[one]"),
        Err(QueryError::InvalidArrayIndex)
    );
}

#[test]
fn missing_structural_positions() {
    assert_eq!(
        run_query(r#"{"a":1}"#, vec![], vec![], "$.a"),
        Err(QueryError::IndexOutOfRange)
    );
    assert_eq!(
        run_query(r#"{"a":1}"#, vec![2, 0, 0], vec![0, 4, 60], "$.a"),
        Err(QueryError::IndexOutOfRange)
    );
}

#[test]
fn position_inside_a_character() {
    // byte 1 is the second byte of the two-byte character at 0
    let p = parser("\u{00E9}{", vec![1], vec![0]);
    assert_eq!(p.get_current_structural(), Err(QueryError::NotCharBoundary));
}

#[test]
fn decreasing_positions_after_colon() {
    // "x":... with the position after the colon lying before it
    let json = r#"{"x":1,"y":2}"#;
    let r = run_query(json, vec![0, 0, 0, 0, 0], vec![0, 4, 2, 8, 12], "$.y");
    assert_eq!(r, Err(QueryError::DecreasingStructuralIndex));
}

#[test]
fn pairing_overflow() {
    let json = r#"{"x":[1],"y":2}"#;
    let s = vec![0, 4, 5, 7, 8, 12, 14];
    let p = vec![6, 0, u32::MAX, 0, 0, 0, 0];
    assert_eq!(run_query(json, p, s, "$.y"), Err(QueryError::PairingOverflow));
}

#[test]
fn backward_pairing_jump_keeps_searching() {
    let json = r#"{"x":[],"a":5,"y":[]}"#;
    let s = vec![0, 4, 5, 6, 7, 11, 13, 17, 18, 19, 20];
    let p = vec![10, 0, 5, 0, 0, 0, 0, 0, 3, 0, 0];
    assert_eq!(run_query(json, p, s, "$.a"), Ok(b"5".to_vec()));
}

#[test]
fn key_search_that_goes_round_for_ever() {
    let json = r#"{"x":[],"a":5,"y":[]}"#;
    let s = vec![0, 4, 5, 6, 7, 11, 13, 17, 18, 19, 20];
    let p = vec![10, 0, 5, 0, 0, 0, 0, 0, 5, 0, 0];
    assert_eq!(run_query(json, p, s, "$.z"), Err(QueryError::KeySearchCycles));
}

#[test]
fn cursor_moves() {
    let mut p = parser("[1,2,3]", vec![0, 2, 4, 6], vec![3, 0, 0, 0]);
    assert_eq!(p.get_current_structural(), Ok(b'['));
    assert_eq!(p.peek_next_structural(), Ok(b','));
    assert_eq!(p.current_structural_index, 0);
    assert_eq!(p.next_structural(), Ok(b','));
    assert_eq!(p.current_structural_index, 1);
    assert_eq!(p.get_current_structural(), Ok(b','));
    assert_eq!(p.get_value(1), Ok(&b"2"[..]));
    assert_eq!(p.next_structural(), Ok(b','));
    assert_eq!(p.next_structural(), Ok(b']'));
    assert_eq!(p.next_structural(), Err(QueryError::IndexOutOfRange));
    assert_eq!(p.current_structural_index, 3);
}

#[test]
fn jump_past_nested_value() {
    let mut p = parser(r#"[{"a":1},{"b":2}]"#, vec![0, 1, 5, 7, 8, 9, 13, 15, 16], vec![8, 3, 0, 0, 0, 7, 0, 0, 0]);
    assert_eq!(p.jump_object_or_array(), Ok(()));
    assert_eq!(p.current_structural_index, 4);
    assert_eq!(p.get_current_structural(), Ok(b','));
}

#[test]
fn key_slice_and_checks() {
    let mut p = parser(r#"{ "key" :1}"#, vec![0, 8, 10], vec![2, 0, 0]);
    assert_eq!(p.get_object_key_slice(), Ok(&b"\"key\""[..]));
    assert_eq!(p.assert_current_is_brace(), Ok(()));
    assert_eq!(p.assert_current_is_bracket(), Err(QueryError::ExpectedBracket { found: b'{' }));
    assert_eq!(p.assert_current_is_colon(), Err(QueryError::ExpectedColon { found: b'{' }));
    let _ = p.next_structural();
    assert_eq!(p.assert_current_is_colon(), Ok(()));
}

#[test]
fn parse_moves_cursor_after_value() {
    let mut p = parser(r#"{"a":{"b":2}}"#, vec![0, 4, 5, 9, 11, 12], vec![5, 0, 4, 0, 0, 0]);
    let q = vec![QueryKey::ObjectKey(b"a".to_vec()), QueryKey::ObjectKey(b"b".to_vec())];
    assert_eq!(p.parse(&q), Ok(b"2".to_vec()));
    assert_eq!(p.current_structural_index, 4);
}

#[test]
fn classify_keywords() {
    assert_eq!(classify_primitive(b"true", false), JsonPrimitive::Bool(true));
    assert_eq!(classify_primitive(b"false", true), JsonPrimitive::Bool(false));
    assert_eq!(classify_primitive(b"null", false), JsonPrimitive::Null);
}

#[test]
fn classify_numbers_and_strings() {
    assert_eq!(classify_primitive(b"123", true), JsonPrimitive::Number(b"123".to_vec()));
    assert_eq!(
        classify_primitive(b"\"a string\"", false),
        JsonPrimitive::String(b"a string".to_vec())
    );
    assert_eq!(classify_primitive(b"True", false), JsonPrimitive::String(b"True".to_vec()));
}

#[test]
fn query_in_two_parts_matches_whole_query() {
    let s = complex_structural();
    let p = complex_pairs();
    let mut whole = parser(COMPLEX, s.clone(), p.clone());
    let q = vec![
        QueryKey::ObjectKey(b"g".to_vec()),
        QueryKey::ObjectKey(b"c".to_vec()),
        QueryKey::ArrayIndex(1),
    ];
    assert!(whole.parse(&q).is_ok());
    let mut split = parser(COMPLEX, s, p);
    assert!(split.parse(&vec![QueryKey::ObjectKey(b"g".to_vec())]).is_ok());
    assert!(split
        .parse(&vec![QueryKey::ObjectKey(b"c".to_vec()), QueryKey::ArrayIndex(1)])
        .is_ok());
    assert_eq!(split.current_structural_index, whole.current_structural_index);
}

#[test]
fn found_value_follows_its_key() {
    let mut p = parser(COMPLEX, complex_structural(), complex_pairs());
    assert_eq!(p.parse(&vec![QueryKey::ObjectKey(b"d".to_vec())]), Ok(b"\"a string\"".to_vec()));
    let c = p.current_structural_index;
    assert!(c >= 2);
    p.current_structural_index = c - 2;
    assert_eq!(p.get_object_key_slice(), Ok(&b"\"d\""[..]));
    p.current_structural_index = c - 1;
    assert_eq!(p.get_current_structural(), Ok(b':'));
}

/// Structural and pairing indexes of a JSON text, structural characters
/// inside strings left out.
fn indexes_of(json: &str) -> (Vec<u32>, Vec<u32>) {
    let mut structural = Vec::new();
    let mut in_string = false;
    let mut escaped = false;
    for (i, b) in json.bytes().enumerate() {
        if in_string {
            if escaped {
                escaped = false;
            } else if b == b'\\' {
                escaped = true;
            } else if b == b'"' {
                in_string = false;
            }
        } else if b == b'"' {
            in_string = true;
        } else if b"{}[]:,".contains(&b) {
            structural.push(i as u32);
        }
    }
    let mut pairs = vec![0u32; structural.len()];
    let mut open = Vec::new();
    for (rank, &pos) in structural.iter().enumerate() {
        match json.as_bytes()[pos as usize] {
            b'{' | b'[' => open.push(rank),
            b'}' | b']' => {
                let o = open.pop().unwrap();
                pairs[o] = rank as u32;
            }
            _ => {}
        }
    }
    (structural, pairs)
}

#[test]
fn query_answers_value_at_path_with_white_space() {
    let json = r#"{ "a":[ 1 , {"b": true } , "s,t" ], "c" :{"d":[ null ]}, "e": 2.5 }"#;
    let (s, p) = indexes_of(json);
    assert_eq!(run_query(json, p.clone(), s.clone(), "$.a[0]"), Ok(b"1".to_vec()));
    assert_eq!(run_query(json, p.clone(), s.clone(), "$.a[1].b"), Ok(b"true".to_vec()));
    assert_eq!(run_query(json, p.clone(), s.clone(), "$.a[2]"), Ok(b"\"s,t\"".to_vec()));
    assert_eq!(run_query(json, p.clone(), s.clone(), "$.c.d[0]"), Ok(b"null".to_vec()));
    assert_eq!(run_query(json, p, s, "$.e"), Ok(b"2.5".to_vec()));
}

#[test]
fn query_with_leading_white_space_and_padded_indexes() {
    let json = "  \n{\"a\":[1,{\"b\": \"x\"}], \"c\": 7}  ";
    let (mut s, mut p) = indexes_of(json);
    s.extend(std::iter::repeat(0).take(8));
    p.extend(std::iter::repeat(0).take(8));
    assert_eq!(run_query(json, p.clone(), s.clone(), "$.a[0]"), Ok(b"1".to_vec()));
    assert_eq!(run_query(json, p.clone(), s.clone(), "$.a[1].b"), Ok(b"\"x\"".to_vec()));
    assert_eq!(run_query(json, p, s, "$.c"), Ok(b"7".to_vec()));
}
