//! The adaptive parallel-map engine. A threshold gate picks sequential
//! or chunked execution from the input length; on the chunked path the
//! partitioner splits the input into contiguous chunks, one task per
//! chunk applies the transform locally, and the aggregator concatenates
//! the per-chunk outputs in the original chunk order, so the output is
//! index-aligned with the input whatever order the tasks finish in.
//!
//! `parallel_map` here runs the per-chunk tasks in the calling thread:
//! the verifier accepts no thread primitive, so a driver that wants one
//! OS worker per chunk lives outside the library and composes the same
//! verified pieces (`gate`, `partition`, `map_chunk`, `aggregate`),
//! handing `aggregate` one completed result per chunk, `None` for a
//! worker that terminated abnormally.

use vstd::prelude::*;

use crate::partition::Strategy;
use crate::partition::chunk_size_for;
use crate::partition::concat_all;
use crate::partition::lemma_concat_all_element;
use crate::partition::lemma_concat_all_take_succ;
use crate::partition::partition;
use crate::partition::views_of;

verus! {

/// Execution path chosen by the threshold gate.
#[derive(Clone, Copy, Debug, PartialEq, Eq, Structural)]
pub enum Mode {
    Sequential,
    Parallel,
}

/// Sequential when the input length is at most the threshold (so empty
/// input always takes the sequential path), parallel otherwise.
pub fn gate(input_len: usize, threshold: usize) -> (mode: Mode)
    ensures
        mode == Mode::Sequential <==> input_len <= threshold,
{
    if input_len <= threshold {
        Mode::Sequential
    } else {
        Mode::Parallel
    }
}

/// Failure of an engine call; a valid (even empty) output is always
/// distinguishable from this.
#[derive(Clone, Copy, Debug, PartialEq, Eq, Structural)]
pub enum EngineError {
    /// A worker terminated abnormally; `chunk` is the position of the
    /// first failing chunk among the chunks the partitioner produced.
    WorkerFailure { chunk: usize },
}

/// The transform may be called on every element of `input`.
pub open spec fn callable_on_each<T, R, F: Fn(T) -> R>(func: F, input: Seq<T>) -> bool {
    forall|i: int| 0 <= i < input.len() ==> call_requires(func, (#[trigger] input[i],))
}

/// `output` is an element-wise image of `input` under `func`: same
/// length, and each element is a possible result of `func` on the
/// element at the same index.
pub open spec fn applies_to_each<T, R, F: Fn(T) -> R>(func: F, input: Seq<T>, output: Seq<R>) -> bool {
    &&& output.len() == input.len()
    &&& forall|i: int|
        0 <= i < input.len() ==> call_ensures(func, (input[i],), #[trigger] output[i])
}

/// The elements of `v`, in reverse order; popping the result hands the
/// elements of `v` out front to back.
fn reversed<A>(v: Vec<A>) -> (r: Vec<A>)
    ensures
        r@.len() == v@.len(),
        forall|i: int| 0 <= i < v@.len() ==> r@[i] == v@[v@.len() - 1 - i],
{
    let mut src = v;
    let mut r: Vec<A> = Vec::new();
    proof {
        assert(src@ =~= v@.subrange(0, src@.len() as int));
    }
    while src.len() > 0
        invariant
            src@ == v@.subrange(0, src@.len() as int),
            r@.len() + src@.len() == v@.len(),
            forall|i: int| 0 <= i < r@.len() ==> r@[i] == v@[v@.len() - 1 - i],
        decreases src@.len(),
    {
        let x = src.pop().unwrap();
        r.push(x);
        proof {
            assert(src@ =~= v@.subrange(0, src@.len() as int));
        }
    }
    r
}

/// One task's work: applies `func` to each element of `chunk` in order,
/// sequentially. The sequential path runs it on the whole input; a
/// chunked driver runs it once per chunk.
pub fn map_chunk<T, R, F: Fn(T) -> R>(chunk: Vec<T>, func: F) -> (out: Vec<R>)
    requires
        callable_on_each(func, chunk@),
    ensures
        applies_to_each(func, chunk@, out@),
{
    let ghost chunk_view = chunk@;
    let mut rev = reversed(chunk);
    let mut out: Vec<R> = Vec::new();
    while rev.len() > 0
        invariant
            callable_on_each(func, chunk_view),
            out@.len() + rev@.len() == chunk_view.len(),
            forall|i: int|
                0 <= i < rev@.len() ==> rev@[i] == chunk_view[chunk_view.len() - 1 - i],
            forall|i: int|
                0 <= i < out@.len() ==> call_ensures(func, (chunk_view[i],), #[trigger] out@[i]),
        decreases rev@.len(),
    {
        let x = rev.pop().unwrap();
        proof {
            assert(x == chunk_view[out@.len() as int]);
        }
        let y = func(x);
        out.push(y);
    }
    out
}

/// The element sequences of the completed results, where present.
pub open spec fn some_views<R>(parts: Seq<Option<Vec<R>>>) -> Seq<Seq<R>> {
    parts.map_values(|p: Option<Vec<R>>| p->0@)
}

/// Result aggregator: takes one result per chunk, in the order the
/// partitioner produced the chunks (`None` for a task that terminated
/// abnormally), and concatenates the completed outputs in that order.
/// If every task completed, the whole output is returned; if any task
/// failed, the call fails as a whole, reporting the first failing
/// chunk, and no partial output is returned.
pub fn aggregate<R>(parts: Vec<Option<Vec<R>>>) -> (result: Result<Vec<R>, EngineError>)
    ensures
        result is Ok <==> (forall|j: int| 0 <= j < parts@.len() ==> (#[trigger] parts@[j]) is Some),
        (result matches Ok(output) ==> output@ == concat_all(some_views(parts@))),
        (result matches Err(e) ==> (e matches EngineError::WorkerFailure { chunk } && chunk
            < parts@.len() && parts@[chunk as int] is None && (forall|j: int|
            0 <= j < chunk ==> (#[trigger] parts@[j]) is Some))),
{
    let ghost parts_view = parts@;
    let ghost svs = some_views(parts@);
    let total = parts.len();
    let mut pending = reversed(parts);
    let mut output: Vec<R> = Vec::new();
    let mut joined: usize = 0;
    while pending.len() > 0
        invariant
            parts_view == parts@,
            svs == some_views(parts_view),
            svs.len() == parts_view.len(),
            total == parts_view.len(),
            joined + pending@.len() == total,
            forall|i: int|
                0 <= i < pending@.len() ==> pending@[i] == parts_view[total - 1 - i],
            forall|j: int| 0 <= j < joined ==> (#[trigger] parts_view[j]) is Some,
            output@ == concat_all(svs.take(joined as int)),
        decreases pending@.len(),
    {
        let next = pending.pop().unwrap();
        let ghost j = joined as int;
        proof {
            assert(next == parts_view[j]);
        }
        match next {
            Some(mut part) => {
                proof {
                    lemma_concat_all_take_succ(svs, j);
                    assert(svs[j] == parts_view[j]->0@);
                }
                output.append(&mut part);
                joined = joined + 1;
            },
            None => {
                proof {
                    assert(0 <= j < parts_view.len());
                    assert(next is None);
                    assert(!(parts_view[j] is Some));
                }
                return Err(EngineError::WorkerFailure { chunk: joined });
            },
        }
    }
    proof {
        assert(svs.take(total as int) =~= svs);
    }
    Ok(output)
}

/// Concatenation preserves element-wise images: when the chunks
/// concatenate to the input and each task's output is an element-wise
/// image of its own chunk, the concatenation of the outputs in chunk
/// order is an element-wise image of the whole input. This is why the
/// aggregated output is index-aligned with the input no matter how the
/// tasks were executed or finished.
pub proof fn lemma_concat_preserves_image<T, R, F: Fn(T) -> R>(
    func: F,
    chunk_views: Seq<Seq<T>>,
    part_views: Seq<Seq<R>>,
)
    requires
        part_views.len() == chunk_views.len(),
        forall|j: int|
            0 <= j < chunk_views.len() ==> applies_to_each(
                func,
                chunk_views[j],
                #[trigger] part_views[j],
            ),
    ensures
        applies_to_each(func, concat_all(chunk_views), concat_all(part_views)),
    decreases chunk_views.len(),
{
    if chunk_views.len() > 0 {
        let n = chunk_views.len() as int;
        assert forall|j: int| 0 <= j < n - 1 implies applies_to_each(
            func,
            chunk_views.drop_last()[j],
            #[trigger] part_views.drop_last()[j],
        ) by {
            assert(applies_to_each(func, chunk_views[j], part_views[j]));
        }
        lemma_concat_preserves_image(func, chunk_views.drop_last(), part_views.drop_last());
        let a = concat_all(chunk_views.drop_last());
        let c = concat_all(part_views.drop_last());
        let b = chunk_views.last();
        let d = part_views.last();
        assert(applies_to_each(func, b, d));
        assert forall|i: int| 0 <= i < (a + b).len() implies call_ensures(
            func,
            ((a + b)[i],),
            #[trigger] (c + d)[i],
        ) by {
            if i < a.len() {
                assert(call_ensures(func, (a[i],), c[i]));
            } else {
                assert(call_ensures(func, (b[i - a.len()],), d[i - a.len()]));
            }
        }
    }
}

/// Applies `func` to every element of `input`: sequentially in one pass
/// when the input length is at most `threshold`, and chunk by chunk
/// (one task per chunk, aggregated in chunk order) otherwise. On
/// success the output has the input's length and is index-aligned with
/// it. The tasks here run to completion inside the call, so success is
/// guaranteed; the `Result` is the engine's interface, on which a
/// driver with real workers reports `EngineError::WorkerFailure`
/// through `aggregate` instead.
pub fn parallel_map<T, R, F: Fn(T) -> R + Copy>(
    input: Vec<T>,
    threshold: usize,
    strategy: Strategy,
    func: F,
) -> (result: Result<Vec<R>, EngineError>)
    requires
        callable_on_each(func, input@),
    ensures
        (result matches Ok(output) && applies_to_each(func, input@, output@)),
{
    let ghost input_view = input@;
    let n = input.len();
    match gate(n, threshold) {
        Mode::Sequential => Ok(map_chunk(input, func)),
        Mode::Parallel => {
            let size = chunk_size_for(strategy, n, threshold);
            let chunks = partition(input, size);
            let ghost chunk_views = views_of(chunks@);
            let num_chunks = chunks.len();

            let mut pending = reversed(chunks);
            let mut parts: Vec<Option<Vec<R>>> = Vec::new();
            while pending.len() > 0
                invariant
                    callable_on_each(func, input_view),
                    concat_all(chunk_views) == input_view,
                    chunk_views.len() == num_chunks,
                    parts@.len() + pending@.len() == num_chunks,
                    forall|i: int|
                        0 <= i < pending@.len() ==> (#[trigger] pending@[i])@ == chunk_views[
                            num_chunks - 1 - i
                        ],
                    forall|j: int|
                        0 <= j < parts@.len() ==> (#[trigger] parts@[j]) is Some
                            && applies_to_each(func, chunk_views[j], parts@[j]->0@),
                decreases pending@.len(),
            {
                let chunk = pending.pop().unwrap();
                let ghost j = parts@.len() as int;
                proof {
                    assert(chunk@ == chunk_views[j]);
                    assert forall|i: int| 0 <= i < chunk@.len() implies call_requires(
                        func,
                        (#[trigger] chunk@[i],),
                    ) by {
                        lemma_concat_all_element(chunk_views, j, i);
                        assert(chunk@[i] == input_view[concat_all(chunk_views.take(j)).len() + i]);
                    }
                }
                let part = map_chunk(chunk, func);
                parts.push(Some(part));
            }

            let ghost svs = some_views(parts@);
            proof {
                assert forall|j: int| 0 <= j < chunk_views.len() implies applies_to_each(
                    func,
                    chunk_views[j],
                    #[trigger] svs[j],
                ) by {
                    assert(svs[j] == parts@[j]->0@);
                }
                lemma_concat_preserves_image(func, chunk_views, svs);
            }
            aggregate(parts)
        },
    }
}

/// A deterministic transform pins the engine's output: any two outputs
/// that are element-wise images of the same input under the same
/// transform are equal. Changing only the threshold or the strategy
/// therefore never changes the output, only the execution path taken.
pub proof fn lemma_output_determined<T, R, F: Fn(T) -> R>(
    func: F,
    input: Seq<T>,
    out1: Seq<R>,
    out2: Seq<R>,
)
    requires
        forall|x: T, y1: R, y2: R|
            #![trigger call_ensures(func, (x,), y1), call_ensures(func, (x,), y2)]
            call_ensures(func, (x,), y1) && call_ensures(func, (x,), y2) ==> y1 == y2,
        applies_to_each(func, input, out1),
        applies_to_each(func, input, out2),
    ensures
        out1 == out2,
{
    assert forall|i: int| 0 <= i < input.len() implies out1[i] == out2[i] by {
        assert(call_ensures(func, (input[i],), out1[i]));
        assert(call_ensures(func, (input[i],), out2[i]));
    }
    assert(out1 =~= out2);
}

} // verus!
