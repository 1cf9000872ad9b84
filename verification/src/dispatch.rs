//! The dispatch engine: fans chunks out to a remote completion service in
//! bounded, order-preserving batches, tolerates per-chunk failure, and
//! aggregates the surviving responses deterministically.
//!
//! The engine itself never performs a request. It hands the caller the
//! request payloads of the current batch, the caller performs them (in any
//! order, concurrently if it likes) and hands back one outcome per chunk;
//! the engine folds the successes into its ordered result list and moves on
//! to the next batch. A failed chunk is dropped from the output and never
//! aborts its siblings.

use vstd::prelude::*;
use vstd::string::StringExecFns;

use crate::chunker::views;

verus! {

/// The outcome of one completion request: the response body, or the reason
/// the request failed (a network error, a malformed response, a rate
/// limit). Produced once per chunk; a failed chunk is never retried.
pub enum CompletionResult {
    Success { text: String },
    Failure { reason: String },
}

/// The response text of a successful outcome (and the empty sequence for a
/// failure, which never reaches the output).
pub open spec fn success_text(r: CompletionResult) -> Seq<char> {
    match r {
        CompletionResult::Success { text } => text@,
        CompletionResult::Failure { .. } => Seq::empty(),
    }
}

/// The response texts of the successful outcomes, in order; failures are
/// dropped.
pub open spec fn successes(rs: Seq<CompletionResult>) -> Seq<Seq<char>>
    decreases rs.len(),
{
    if rs.len() == 0 {
        Seq::empty()
    } else {
        successes(rs.drop_last()) + (if rs.last() is Success {
            seq![success_text(rs.last())]
        } else {
            Seq::empty()
        })
    }
}

/// The payload of one request: the shared prompt, a blank line, the chunk.
pub open spec fn request_payload(prompt: Seq<char>, chunk: Seq<char>) -> Seq<char> {
    prompt + seq!['\n', '\n'] + chunk
}

/// Consecutive chunks grouped into batches of `b`, in order; only the last
/// batch may be smaller.
pub open spec fn batches_spec(chunks: Seq<Seq<char>>, b: int) -> Seq<Seq<Seq<char>>>
    decreases chunks.len(),
    when b >= 1
{
    if chunks.len() == 0 {
        Seq::empty()
    } else if chunks.len() <= b {
        seq![chunks]
    } else {
        seq![chunks.take(b)] + batches_spec(chunks.skip(b), b)
    }
}

/// The views of a sequence of owned batches.
pub open spec fn batch_views(bs: Seq<Vec<String>>) -> Seq<Seq<Seq<char>>> {
    bs.map_values(|b: Vec<String>| views(b@))
}

/// Build the request payload for one chunk: `prompt`, a blank line, the
/// chunk text.
pub fn format_request(prompt: &str, chunk: &str) -> (r: String)
    ensures
        r@ == request_payload(prompt@, chunk@),
{
    let mut s = prompt.to_owned();
    s.append("\n\n");
    s.append(chunk);
    proof {
        reveal_strlit("\n\n");
        assert("\n\n"@ =~= seq!['\n', '\n']);
        assert(s@ =~= request_payload(prompt@, chunk@));
    }
    s
}

/// Partition chunks into consecutive batches of at most `batch_size`, in
/// order; every batch but the last is full.
pub fn make_batches(chunks: &Vec<String>, batch_size: usize) -> (batches: Vec<Vec<String>>)
    requires
        batch_size >= 1,
    ensures
        batch_views(batches@) == batches_spec(views(chunks@), batch_size as int),
{
    let ghost gs: Seq<Seq<char>> = views(chunks@);
    let mut batches: Vec<Vec<String>> = Vec::new();
    let mut i: usize = 0;
    proof {
        assert(gs.skip(0) =~= gs);
        assert(batch_views(batches@) + batches_spec(gs, batch_size as int) =~= batches_spec(
            gs,
            batch_size as int,
        ));
    }
    while i < chunks.len()
        invariant
            batch_size >= 1,
            i <= chunks.len(),
            gs == views(chunks@),
            gs.len() == chunks@.len(),
            batches_spec(gs, batch_size as int) == batch_views(batches@) + batches_spec(
                gs.skip(i as int),
                batch_size as int,
            ),
        decreases chunks.len() - i,
    {
        let ghost prev_batches: Seq<Seq<Seq<char>>> = batch_views(batches@);
        let end: usize = if chunks.len() - i < batch_size {
            chunks.len()
        } else {
            i + batch_size
        };
        let mut cur: Vec<String> = Vec::new();
        let mut j: usize = i;
        while j < end
            invariant
                i <= j <= end <= chunks.len(),
                gs == views(chunks@),
                gs.len() == chunks@.len(),
                views(cur@) == gs.subrange(i as int, j as int),
            decreases end - j,
        {
            let ghost prev_cur: Seq<Seq<char>> = views(cur@);
            cur.push(chunks[j].clone());
            proof {
                assert(views(cur@) =~= prev_cur.push(gs[j as int]));
                assert(gs.subrange(i as int, j + 1) =~= gs.subrange(i as int, j as int).push(
                    gs[j as int],
                ));
            }
            j = j + 1;
        }
        batches.push(cur);
        proof {
            let b = batch_size as int;
            let rest = gs.skip(i as int);
            assert(batch_views(batches@) =~= prev_batches.push(gs.subrange(i as int, end as int)));
            if rest.len() <= b {
                assert(gs.subrange(i as int, end as int) =~= rest);
                assert(batches_spec(rest, b) == seq![rest]);
                assert(gs.skip(end as int) =~= Seq::<Seq<char>>::empty());
                assert(batches_spec(gs.skip(end as int), b) == Seq::<Seq<Seq<char>>>::empty());
                assert(prev_batches.push(rest) =~= prev_batches + seq![rest]);
            } else {
                assert(gs.subrange(i as int, end as int) =~= rest.take(b));
                assert(rest.skip(b) =~= gs.skip(end as int));
                assert(prev_batches.push(rest.take(b)) =~= prev_batches + seq![rest.take(b)]);
                assert((prev_batches + seq![rest.take(b)]) + batches_spec(gs.skip(end as int), b)
                    =~= prev_batches + (seq![rest.take(b)] + batches_spec(rest.skip(b), b)));
            }
        }
        i = end;
    }
    proof {
        assert(gs.skip(i as int) =~= Seq::<Seq<char>>::empty());
        assert(batches_spec(gs, batch_size as int) =~= batch_views(batches@));
    }
    batches
}

/// Keep the response texts of the successful outcomes, in their original
/// order; drop the failures.
pub fn collect_successes(outcomes: &Vec<CompletionResult>, results: &mut Vec<String>)
    ensures
        views(final(results)@) == views(old(results)@) + successes(outcomes@),
{
    let mut i: usize = 0;
    proof {
        assert(outcomes@.take(0) =~= Seq::<CompletionResult>::empty());
        assert(views(results@) + successes(outcomes@.take(0)) =~= views(results@));
    }
    while i < outcomes.len()
        invariant
            i <= outcomes.len(),
            views(results@) == views(old(results)@) + successes(outcomes@.take(i as int)),
        decreases outcomes.len() - i,
    {
        let ghost prev: Seq<Seq<char>> = views(results@);
        match &outcomes[i] {
            CompletionResult::Success { text } => {
                results.push(text.clone());
                proof {
                    assert(views(results@) =~= prev.push(text@));
                }
            },
            CompletionResult::Failure { .. } => {},
        }
        proof {
            let taken = outcomes@.take(i as int);
            assert(outcomes@.take(i + 1).drop_last() =~= taken);
            assert(outcomes@.take(i + 1).last() == outcomes@[i as int]);
            if outcomes@[i as int] is Success {
                assert(views(results@) =~= (views(old(results)@) + successes(taken)) + seq![
                    success_text(outcomes@[i as int]),
                ]);
                assert(views(results@) =~= views(old(results)@) + (successes(taken) + seq![
                    success_text(outcomes@[i as int]),
                ]));
            } else {
                assert(successes(outcomes@.take(i + 1)) =~= successes(taken));
            }
        }
        i = i + 1;
    }
    proof {
        assert(outcomes@.take(outcomes@.len() as int) =~= outcomes@);
    }
}

/// The dispatch engine. It is driven batch by batch: `next_requests` hands
/// out the payloads of the current batch, `record_batch` takes the per-chunk
/// outcomes back, in chunk order, and appends the successes to the ordered
/// result list. Batch `k` is fully recorded before batch `k + 1` is handed
/// out, so inter-batch ordering is strict, while the caller may complete the
/// requests within one batch in any order it likes.
pub struct DispatchEngine {
    /// The instruction prepended to every chunk.
    pub prompt: String,
    /// The chunk batches, in input order.
    pub batches: Vec<Vec<String>>,
    /// The index of the first batch not yet recorded.
    pub next_batch: usize,
    /// The response texts of the successful requests so far, in input order.
    pub results: Vec<String>,
}

impl DispatchEngine {
    /// Set up a dispatch of `chunks` under `prompt`, at most `batch_size`
    /// requests at a time.
    pub fn new(prompt: String, chunks: &Vec<String>, batch_size: usize) -> (engine: DispatchEngine)
        requires
            batch_size >= 1,
        ensures
            engine.prompt == prompt,
            batch_views(engine.batches@) == batches_spec(views(chunks@), batch_size as int),
            engine.next_batch == 0,
            engine.results@ == Seq::<String>::empty(),
    {
        let batches = make_batches(chunks, batch_size);
        DispatchEngine { prompt, batches, next_batch: 0, results: Vec::new() }
    }

    /// The request payloads of the current batch, in chunk order, or `None`
    /// once every batch has been recorded. An empty chunk sequence means no
    /// request is ever handed out.
    pub fn next_requests(&self) -> (r: Option<Vec<String>>)
        ensures
            match r {
                Some(reqs) => self.next_batch < self.batches@.len() && views(reqs@) == views(
                    self.batches@[self.next_batch as int]@,
                ).map_values(|c: Seq<char>| request_payload(self.prompt@, c)),
                None => self.next_batch >= self.batches@.len(),
            },
    {
        if self.next_batch >= self.batches.len() {
            return None;
        }
        let batch: &Vec<String> = &self.batches[self.next_batch];
        let ghost gb: Seq<Seq<char>> = views(batch@);
        let ghost payloads: Seq<Seq<char>> = gb.map_values(
            |c: Seq<char>| request_payload(self.prompt@, c),
        );
        let mut reqs: Vec<String> = Vec::new();
        let mut j: usize = 0;
        proof {
            assert(views(reqs@) =~= payloads.take(0));
        }
        while j < batch.len()
            invariant
                j <= batch.len(),
                gb == views(batch@),
                gb.len() == batch@.len(),
                payloads == gb.map_values(|c: Seq<char>| request_payload(self.prompt@, c)),
                views(reqs@) == payloads.take(j as int),
            decreases batch.len() - j,
        {
            let ghost prev: Seq<Seq<char>> = views(reqs@);
            reqs.push(format_request(self.prompt.as_str(), batch[j].as_str()));
            proof {
                assert(views(reqs@) =~= prev.push(payloads[j as int]));
                assert(payloads.take(j + 1) =~= payloads.take(j as int).push(payloads[j as int]));
            }
            j = j + 1;
        }
        proof {
            assert(payloads.take(payloads.len() as int) =~= payloads);
        }
        Some(reqs)
    }

    /// Record the outcomes of the current batch, one per chunk and in chunk
    /// order: the successes join the ordered result list, the failures are
    /// dropped, and the engine moves to the next batch.
    pub fn record_batch(&mut self, outcomes: &Vec<CompletionResult>)
        requires
            old(self).next_batch < old(self).batches@.len(),
            outcomes@.len() == old(self).batches@[old(self).next_batch as int]@.len(),
        ensures
            final(self).prompt == old(self).prompt,
            final(self).batches == old(self).batches,
            final(self).next_batch == old(self).next_batch + 1,
            views(final(self).results@) == views(old(self).results@) + successes(outcomes@),
    {
        let n: usize = self.batches.len();
        collect_successes(outcomes, &mut self.results);
        assert(self.next_batch < n);
        self.next_batch = self.next_batch + 1;
    }

    /// Whether every batch has been recorded.
    pub fn is_done(&self) -> (r: bool)
        ensures
            r == (self.next_batch >= self.batches@.len()),
    {
        self.next_batch >= self.batches.len()
    }

    /// The ordered responses of the surviving chunks.
    pub fn into_results(self) -> (r: Vec<String>)
        ensures
            r == self.results,
    {
        self.results
    }
}

/// Batching loses and reorders nothing: the batches, concatenated in order,
/// give back the chunk sequence.
pub proof fn lemma_batches_flatten(chunks: Seq<Seq<char>>, b: int)
    requires
        b >= 1,
    ensures
        batches_spec(chunks, b).flatten() == chunks,
    decreases chunks.len(),
{
    if chunks.len() == 0 {
        assert(batches_spec(chunks, b).flatten() =~= chunks);
    } else if chunks.len() <= b {
        batches_spec(chunks, b).lemma_flatten_one_element();
    } else {
        lemma_batches_flatten(chunks.skip(b), b);
        vstd::seq_lib::lemma_flatten_concat(seq![chunks.take(b)], batches_spec(chunks.skip(b), b));
        seq![chunks.take(b)].lemma_flatten_one_element();
        assert(chunks.take(b) + chunks.skip(b) =~= chunks);
    }
}

/// Every batch is nonempty and holds at most `b` chunks, and every batch
/// but the last holds exactly `b`: concurrency stays bounded and full
/// batches come first.
pub proof fn lemma_batches_sizes(chunks: Seq<Seq<char>>, b: int, k: int)
    requires
        b >= 1,
        0 <= k < batches_spec(chunks, b).len(),
    ensures
        1 <= batches_spec(chunks, b)[k].len() <= b,
        k < batches_spec(chunks, b).len() - 1 ==> batches_spec(chunks, b)[k].len() == b,
    decreases chunks.len(),
{
    if chunks.len() <= b {
        assert(batches_spec(chunks, b)[k] == chunks);
    } else if k > 0 {
        lemma_batches_sizes(chunks.skip(b), b, k - 1);
        assert(batches_spec(chunks, b)[k] == batches_spec(chunks.skip(b), b)[k - 1]);
    }
}

/// The caller-visible answer: the surviving responses joined, in order,
/// with a single separator between each pair.
pub open spec fn join_with(parts: Seq<Seq<char>>, sep: Seq<char>) -> Seq<char>
    decreases parts.len(),
{
    if parts.len() == 0 {
        Seq::empty()
    } else if parts.len() == 1 {
        parts[0]
    } else {
        join_with(parts.drop_last(), sep) + sep + parts.last()
    }
}

/// Join the result texts with `sep` between each adjacent pair.
pub fn join_results(parts: &Vec<String>, sep: &str) -> (r: String)
    ensures
        r@ == join_with(views(parts@), sep@),
{
    let ghost gp: Seq<Seq<char>> = views(parts@);
    let mut s = String::new();
    let mut i: usize = 0;
    proof {
        assert(s@ =~= join_with(gp.take(0), sep@));
    }
    while i < parts.len()
        invariant
            i <= parts.len(),
            gp == views(parts@),
            gp.len() == parts@.len(),
            s@ == join_with(gp.take(i as int), sep@),
        decreases parts.len() - i,
    {
        if i > 0 {
            s.append(sep);
        }
        s.append(parts[i].as_str());
        proof {
            let taken = gp.take(i + 1);
            assert(taken.drop_last() =~= gp.take(i as int));
            assert(taken.last() == gp[i as int]);
            if i == 0 {
                assert(s@ =~= join_with(taken, sep@));
            }
        }
        i = i + 1;
    }
    proof {
        assert(gp.take(gp.len() as int) =~= gp);
    }
    s
}

/// When every request succeeds, the output keeps every chunk's response, in
/// input order: nothing is lost and nothing is reordered.
pub proof fn lemma_all_success(outcomes: Seq<CompletionResult>)
    requires
        forall|i: int| 0 <= i < outcomes.len() ==> outcomes[i] is Success,
    ensures
        successes(outcomes) == outcomes.map_values(|r: CompletionResult| success_text(r)),
        successes(outcomes).len() == outcomes.len(),
    decreases outcomes.len(),
{
    let f = |r: CompletionResult| success_text(r);
    if outcomes.len() == 0 {
        assert(successes(outcomes) =~= outcomes.map_values(f));
    } else {
        lemma_all_success(outcomes.drop_last());
        assert(outcomes.map_values(f) =~= outcomes.drop_last().map_values(f).push(
            f(outcomes.last()),
        ));
        assert(successes(outcomes) =~= outcomes.drop_last().map_values(f).push(
            f(outcomes.last()),
        ));
    }
}

/// When exactly one request fails, the output excludes exactly that chunk's
/// response and keeps the relative order of the other chunks.
pub proof fn lemma_single_failure(outcomes: Seq<CompletionResult>, i: int)
    requires
        0 <= i < outcomes.len(),
        outcomes[i] is Failure,
        forall|j: int| 0 <= j < outcomes.len() && j != i ==> outcomes[j] is Success,
    ensures
        successes(outcomes) == outcomes.remove(i).map_values(
            |r: CompletionResult| success_text(r),
        ),
        successes(outcomes).len() == outcomes.len() - 1,
    decreases outcomes.len(),
{
    let f = |r: CompletionResult| success_text(r);
    if i == outcomes.len() - 1 {
        lemma_all_success(outcomes.drop_last());
        assert(outcomes.remove(i) =~= outcomes.drop_last());
        assert(successes(outcomes) =~= outcomes.remove(i).map_values(f));
    } else {
        lemma_single_failure(outcomes.drop_last(), i);
        assert(outcomes.drop_last().remove(i) =~= outcomes.remove(i).drop_last());
        assert(outcomes.remove(i).last() == outcomes.last());
        assert(outcomes.remove(i).map_values(f) =~= outcomes.remove(i).drop_last().map_values(
            f,
        ).push(f(outcomes.last())));
        assert(successes(outcomes) =~= outcomes.remove(i).map_values(f));
    }
}

} // verus!
