use chatgpt_cli::chunker::chunk;
use chatgpt_cli::CHUNK_SIZE;

fn lines(v: &[&str]) -> Vec<String> {
    v.iter().map(|s| s.to_string()).collect()
}

#[test]
fn empty_document_yields_no_chunks() {
    let out = chunk(&Vec::new(), CHUNK_SIZE);
    assert!(out.is_empty());
}

#[test]
fn small_document_is_one_chunk() {
    let out = chunk(&lines(&["hello", " ", "world"]), CHUNK_SIZE);
    assert_eq!(out, vec!["hello world".to_string()]);
}

#[test]
fn second_long_line_forces_flush() {
    let a = "a".repeat(15000);
    let b = "b".repeat(15000);
    let out = chunk(&lines(&[&a, &b]), 20000);
    assert_eq!(out, vec![a, b]);
}

#[test]
fn concatenation_reproduces_document() {
    let doc = [
        "The first line.",
        "",
        "A second paragraph that goes on for a while,",
        "and a closing line.",
        "",
        "",
        "The end.",
    ];
    let out = chunk(&lines(&doc), 40);
    assert_eq!(out.concat(), doc.concat());
}

#[test]
fn chunks_stay_within_bound() {
    let doc: Vec<String> = (0..200).map(|i| format!("line number {} of the document", i)).collect();
    let out = chunk(&doc, 100);
    assert!(!out.is_empty());
    for c in &out {
        assert!(c.chars().count() <= 100);
    }
    let joined: String = doc.concat();
    assert_eq!(out.concat(), joined);
}

#[test]
fn chunking_twice_is_identical() {
    let doc: Vec<String> = (0..50).map(|i| format!("row {}", i * 7)).collect();
    let first = chunk(&doc, 64);
    let second = chunk(&doc, 64);
    assert_eq!(first, second);
}

#[test]
fn early_flush_near_the_boundary() {
    // After the first line under a fifth of the room is free, so the chunk
    // is closed early instead of taking the second line too.
    let x = "x".repeat(85);
    let y = "y".repeat(10);
    let out = chunk(&lines(&[&x, &y]), 100);
    assert_eq!(out, vec![x, y]);
}

#[test]
fn double_blank_line_suppresses_early_flush() {
    // The third line is the second blank in a row: although the buffer is
    // nearly full, the early cut is suppressed and the next line still
    // lands in the same chunk.
    let out = chunk(&lines(&["aaaaaaaa", " ", "  ", "z"]), 12);
    assert_eq!(out, vec!["aaaaaaaa   z".to_string()]);
}

#[test]
fn oversized_line_becomes_its_own_chunk() {
    let long = "a".repeat(25);
    let out = chunk(&lines(&[&long]), 10);
    assert_eq!(out, vec![String::new(), long]);
}

#[test]
fn document_within_size_and_after_cut() {
    // A document well within the maximum is a single chunk even with many
    // lines.
    let doc = lines(&["one", "two", "three"]);
    let out = chunk(&doc, CHUNK_SIZE);
    assert_eq!(out, vec!["onetwothree".to_string()]);
}
