use chatgpt_cli::chunker::chunk;
use chatgpt_cli::dispatch::{
    collect_successes, format_request, join_results, make_batches, CompletionResult,
    DispatchEngine,
};
use chatgpt_cli::CHUNK_SIZE;

fn owned(v: &[&str]) -> Vec<String> {
    v.iter().map(|s| s.to_string()).collect()
}

#[test]
fn format_request_inserts_blank_line() {
    let r = format_request("summarise this", "chunk body");
    assert_eq!(r, "summarise this\n\nchunk body");
}

#[test]
fn five_chunks_batch_by_two() {
    let chunks = owned(&["c1", "c2", "c3", "c4", "c5"]);
    let batches = make_batches(&chunks, 2);
    assert_eq!(
        batches,
        vec![owned(&["c1", "c2"]), owned(&["c3", "c4"]), owned(&["c5"])]
    );
}

#[test]
fn one_batch_when_fewer_than_batch_size() {
    let chunks = owned(&["c1", "c2"]);
    let batches = make_batches(&chunks, 5);
    assert_eq!(batches, vec![owned(&["c1", "c2"])]);
}

#[test]
fn collect_successes_drops_failures() {
    let outcomes = vec![
        CompletionResult::Success { text: "one".to_string() },
        CompletionResult::Failure { reason: "rate limit".to_string() },
        CompletionResult::Success { text: "three".to_string() },
    ];
    let mut results = Vec::new();
    collect_successes(&outcomes, &mut results);
    assert_eq!(results, owned(&["one", "three"]));
}

#[test]
fn engine_all_success_keeps_order_and_length() {
    let chunks = owned(&["c1", "c2", "c3", "c4", "c5"]);
    let mut engine = DispatchEngine::new("p".to_string(), &chunks, 2);
    let mut batch_sizes = Vec::new();
    while let Some(reqs) = engine.next_requests() {
        batch_sizes.push(reqs.len());
        let outcomes: Vec<CompletionResult> = reqs
            .iter()
            .map(|r| CompletionResult::Success { text: format!("answer to [{}]", r) })
            .collect();
        engine.record_batch(&outcomes);
    }
    // Batches are visited strictly in order: [c1,c2], [c3,c4], [c5].
    assert_eq!(batch_sizes, vec![2, 2, 1]);
    assert!(engine.is_done());
    let results = engine.into_results();
    assert_eq!(
        results,
        vec![
            "answer to [p\n\nc1]".to_string(),
            "answer to [p\n\nc2]".to_string(),
            "answer to [p\n\nc3]".to_string(),
            "answer to [p\n\nc4]".to_string(),
            "answer to [p\n\nc5]".to_string(),
        ]
    );
}

#[test]
fn engine_single_failure_drops_only_that_chunk() {
    let chunks = owned(&["c1", "c2", "c3", "c4"]);
    let mut engine = DispatchEngine::new("p".to_string(), &chunks, 3);
    let mut request_index = 0;
    while let Some(reqs) = engine.next_requests() {
        let outcomes: Vec<CompletionResult> = reqs
            .iter()
            .map(|r| {
                request_index += 1;
                if request_index == 2 {
                    CompletionResult::Failure { reason: "network error".to_string() }
                } else {
                    CompletionResult::Success { text: format!("ok:{}", r) }
                }
            })
            .collect();
        engine.record_batch(&outcomes);
    }
    let results = engine.into_results();
    assert_eq!(
        results,
        vec![
            "ok:p\n\nc1".to_string(),
            "ok:p\n\nc3".to_string(),
            "ok:p\n\nc4".to_string(),
        ]
    );
}

#[test]
fn batch_size_one_is_the_sequential_policy() {
    // With a batch size of one the engine hands out one request at a time,
    // each fully recorded before the next is issued.
    let chunks = owned(&["c1", "c2", "c3"]);
    let mut engine = DispatchEngine::new("p".to_string(), &chunks, 1);
    let mut batch_sizes = Vec::new();
    while let Some(reqs) = engine.next_requests() {
        batch_sizes.push(reqs.len());
        let outcomes: Vec<CompletionResult> = reqs
            .iter()
            .map(|r| CompletionResult::Success { text: r.clone() })
            .collect();
        engine.record_batch(&outcomes);
    }
    assert_eq!(batch_sizes, vec![1, 1, 1]);
    assert_eq!(
        engine.into_results(),
        owned(&["p\n\nc1", "p\n\nc2", "p\n\nc3"])
    );
}

#[test]
fn empty_document_means_no_requests_and_empty_output() {
    let chunks = chunk(&Vec::new(), CHUNK_SIZE);
    assert!(chunks.is_empty());
    let engine = DispatchEngine::new("p".to_string(), &chunks, 5);
    assert!(engine.next_requests().is_none());
    let results = engine.into_results();
    assert!(results.is_empty());
    assert_eq!(join_results(&results, "\n"), "");
}

#[test]
fn join_results_single_separator_between() {
    let parts = owned(&["first", "second", "third"]);
    assert_eq!(join_results(&parts, "\n"), "first\nsecond\nthird");
    assert_eq!(join_results(&owned(&["only"]), "\n"), "only");
}
