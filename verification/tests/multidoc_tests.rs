use chatgpt_cli::multidoc::label_and_merge;
use chatgpt_cli::CHUNK_SIZE;

fn owned(v: &[&str]) -> Vec<String> {
    v.iter().map(|s| s.to_string()).collect()
}

#[test]
fn single_document_passes_through_unlabeled() {
    let files = vec![owned(&["abc", "def"])];
    assert_eq!(label_and_merge(&files, CHUNK_SIZE), owned(&["abc", "def"]));
}

#[test]
fn two_documents_are_labeled_and_coalesced() {
    let files = vec![owned(&["aaa"]), owned(&["bbb"])];
    assert_eq!(
        label_and_merge(&files, CHUNK_SIZE),
        owned(&["File 1: aaaFile 2: bbb"])
    );
}

#[test]
fn no_coalescing_when_the_pair_would_be_too_large() {
    // Each labeled chunk is 11 characters; together they do not stay under
    // the maximum, so they remain separate requests.
    let files = vec![owned(&["aaa"]), owned(&["bbb"])];
    assert_eq!(
        label_and_merge(&files, 20),
        owned(&["File 1: aaa", "File 2: bbb"])
    );
}

#[test]
fn coalescing_never_crosses_the_bound() {
    // Exactly at the maximum is not "under" it: 11 + 11 = 22 < 22 fails.
    let files = vec![owned(&["aaa"]), owned(&["bbb"])];
    assert_eq!(
        label_and_merge(&files, 22),
        owned(&["File 1: aaa", "File 2: bbb"])
    );
    assert_eq!(label_and_merge(&files, 23), owned(&["File 1: aaaFile 2: bbb"]));
}

#[test]
fn labels_use_multi_digit_numbers() {
    let files: Vec<Vec<String>> = (0..12).map(|i| vec![format!("d{}", i)]).collect();
    let merged = label_and_merge(&files, 9);
    assert_eq!(merged.len(), 12);
    assert_eq!(merged[0], "File 1: d0");
    assert_eq!(merged[9], "File 10: d9");
    assert_eq!(merged[11], "File 12: d11");
}

#[test]
fn merge_keeps_document_order() {
    let files = vec![owned(&["one", "two"]), owned(&["three"])];
    let merged = label_and_merge(&files, 12);
    assert_eq!(
        merged,
        owned(&["File 1: one", "File 1: two", "File 2: three"])
    );
    // With room to spare, only the seam between the documents coalesces;
    // the boundary between the first document's own chunks survives.
    let coalesced = label_and_merge(&files, CHUNK_SIZE);
    assert_eq!(
        coalesced,
        owned(&["File 1: one", "File 1: twoFile 2: three"])
    );
}

#[test]
fn same_document_chunks_never_coalesce() {
    // Both chunks of the first document would easily fit together, but a
    // per-document chunk boundary is never merged away; only the seam to
    // the second document may coalesce.
    let files = vec![owned(&["a", "b"]), owned(&["c"])];
    assert_eq!(
        label_and_merge(&files, CHUNK_SIZE),
        owned(&["File 1: a", "File 1: bFile 2: c"])
    );
}
