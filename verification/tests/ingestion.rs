use higgs_graph::ingest::{load_higgs_dataset, parse_dataset, IngestError};
use higgs_graph::temporal::find_first_timestamp;
use std::io::Write;

fn expect_err(r: Result<higgs_graph::graph::Graph, IngestError>) -> IngestError {
    match r {
        Ok(_) => panic!("expected an ingestion error"),
        Err(e) => e,
    }
}

fn gz(text: &str) -> Vec<u8> {
    let mut enc = flate2::write::GzEncoder::new(Vec::new(), flate2::Compression::default());
    enc.write_all(text.as_bytes()).expect("compress");
    enc.finish().expect("compress")
}

#[test]
fn test_load_dataset() {
    let data = gz("1 2 100 MT\n3 1 50 RT\n");
    let g = load_higgs_dataset(&data).expect("well-formed dataset");
    assert_eq!(g.num_edges(), 2);
    let (sender, receiver, rendered, kind) = find_first_timestamp(&g).expect("has edges");
    assert_eq!(sender, 3);
    assert_eq!(receiver, 1);
    assert_eq!(rendered, "1970-01-01 00:00:50.000000000");
    assert_eq!(kind, "RT");
}

#[test]
fn test_load_preserves_order() {
    let data = gz("5 1 10 MT\n5 2 20 RT\n5 3 30 RE\n");
    let g = load_higgs_dataset(&data).expect("well-formed dataset");
    let edges = g.edges_of(5).expect("5 is a source");
    let targets: Vec<usize> = edges.iter().map(|e| e.target).collect();
    assert_eq!(targets, vec![1, 2, 3]);
    let kinds: Vec<&str> = edges.iter().map(|e| e.kind.as_str()).collect();
    assert_eq!(kinds, vec!["MT", "RT", "RE"]);
    assert_eq!(edges[0].timestamp, 10);
}

#[test]
fn test_parallel_edges_kept() {
    let data = gz("1 2 10 MT\n1 2 10 MT\n");
    let g = load_higgs_dataset(&data).expect("well-formed dataset");
    assert_eq!(g.out_degree(1), 2);
}

#[test]
fn test_unknown_kind_preserved() {
    let data = gz("1 2 10 ZZ\n");
    let g = load_higgs_dataset(&data).expect("well-formed dataset");
    let edges = g.edges_of(1).expect("1 is a source");
    assert_eq!(edges[0].kind, "ZZ");
}

#[test]
fn test_no_trailing_newline() {
    let data = gz("1 2 10 MT");
    let g = load_higgs_dataset(&data).expect("well-formed dataset");
    assert_eq!(g.num_edges(), 1);
}

#[test]
fn test_line_whitespace_trimmed() {
    let data = gz(" 1 2 10 MT \r\n");
    let g = load_higgs_dataset(&data).expect("well-formed dataset");
    assert_eq!(g.out_degree(1), 1);
}

#[test]
fn test_empty_input_gives_empty_graph() {
    let data = gz("");
    let g = load_higgs_dataset(&data).expect("empty text is fine");
    assert_eq!(g.num_edges(), 0);
    assert!(find_first_timestamp(&g).is_none());
}

#[test]
fn test_parse_error_field_count() {
    let data = gz("1 2 3\n");
    assert_eq!(expect_err(load_higgs_dataset(&data)), IngestError::Parse);
    let data5 = gz("1 2 3 MT extra\n");
    assert_eq!(expect_err(load_higgs_dataset(&data5)), IngestError::Parse);
}

#[test]
fn test_parse_error_non_integer() {
    let data = gz("a b c d\n");
    assert_eq!(expect_err(load_higgs_dataset(&data)), IngestError::Parse);
}

#[test]
fn test_parse_error_integer_overflow() {
    let data = gz("99999999999999999999999999 2 3 MT\n");
    assert_eq!(expect_err(load_higgs_dataset(&data)), IngestError::Parse);
}

#[test]
fn test_parse_error_empty_line() {
    let data = gz("1 2 3 MT\n\n2 3 4 RT\n");
    assert_eq!(expect_err(load_higgs_dataset(&data)), IngestError::Parse);
}

#[test]
fn test_decode_error_on_corrupt_stream() {
    let garbage: Vec<u8> = vec![1, 2, 3, 4];
    assert_eq!(expect_err(load_higgs_dataset(&garbage)), IngestError::Decode);
}

#[test]
fn test_parse_dataset_plain_text() {
    let text: Vec<u8> = b"9 8 7 MT\n".to_vec();
    let g = parse_dataset(&text).expect("well-formed text");
    assert_eq!(g.out_degree(9), 1);
    assert_eq!(g.out_degree(8), 0);
}
