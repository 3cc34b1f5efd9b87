use jsondata::jsons::{document_value, split_documents, Framer};
use jsondata::{ErrorKind, Json, Property};

fn values(stream: &str) -> Vec<Json> {
    split_documents(stream).iter().map(|text| document_value(text)).collect()
}

#[test]
fn test_stream0() {
    assert!(values("").is_empty());

    assert!(values(" \t \r \n ").is_empty());

    let docs = values(" 1");
    assert_eq!(docs.len(), 1);
    assert_eq!(docs[0], Json::new(1));

    let docs = values(" n");
    assert_eq!(docs.len(), 1);
    assert!(docs[0].is_error());
    let error = docs[0].to_error().unwrap();
    assert_eq!(error.kind(), ErrorKind::ParseFail);
    assert_eq!(error.origin(), "parse");
    assert_eq!(error.message(), "expected null at offset:0 line:1 col:1");
}

#[test]
fn stream_of_scalars_and_containers() {
    let docs = values("1 null true\nfalse 102 [1,2] {\"a\":1}\"x y\" [ [1], {\"b\": [2]} ]   10");
    let expected = vec![
        Json::new(1),
        Json::Null,
        Json::new(true),
        Json::new(false),
        Json::new(102),
        Json::new(vec![Json::new(1), Json::new(2)]),
        Json::new(vec![Property::new("a", Json::new(1))]),
        Json::new("x y"),
        Json::new(vec![
            Json::new(vec![Json::new(1)]),
            Json::new(vec![Property::new("b", Json::new(vec![Json::new(2)]))]),
        ]),
        Json::new(10),
    ];
    assert_eq!(docs, expected);
}

#[test]
fn stream_texts_are_cut_where_documents_end() {
    assert_eq!(split_documents("1 2"), vec!["1 ", "2"]);
    assert_eq!(split_documents("[1][2]"), vec!["[1]", "[2]"]);
    assert_eq!(split_documents("\"a\\\"b\"\"c\""), vec!["\"a\\\"b\"", "\"c\""]);
    assert_eq!(split_documents("  {\"k\": \"}\"}  "), vec!["{\"k\": \"}\"}"]);
    assert_eq!(split_documents("[\"]\", 1"), vec!["[\"]\", 1"]);
    assert_eq!(split_documents("\"open"), vec!["\"open"]);
}

#[test]
fn stream_goes_on_after_a_malformed_document() {
    let docs = values("[1,] nul {\"a\" 1} 7");
    assert_eq!(docs.len(), 4);
    assert_eq!(docs[0], Json::new(vec![Json::new(1)]));
    assert!(docs[1].is_error());
    assert!(docs[2].is_error());
    assert_eq!(docs[3], Json::new(7));
}

#[test]
fn framer_hands_out_a_document_at_its_last_character() {
    let mut framer = Framer::new();
    assert_eq!(framer.feed(' '), None);
    assert_eq!(framer.feed('['), None);
    assert_eq!(framer.feed('{'), None);
    assert_eq!(framer.feed('}'), None);
    assert_eq!(framer.feed(' '), None);
    assert_eq!(framer.feed(']'), Some("[{} ]".to_string()));
    assert_eq!(framer.finish(), None);
    assert_eq!(framer.feed('7'), None);
    assert_eq!(framer.finish(), Some("7".to_string()));
    assert_eq!(framer.finish(), None);
}

#[test]
fn framer_closes_up_to_the_matching_bracket() {
    // A closing bracket drops the markers above the one that it matches.
    assert_eq!(split_documents("[{]"), vec!["[{]"]);
    // A closing bracket without a marker ends the document at once.
    assert_eq!(split_documents("]1"), vec!["]", "1"]);
}
