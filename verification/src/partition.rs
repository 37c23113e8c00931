//! Partitioner: splits an owned input vector into ordered, contiguous,
//! non-overlapping chunks. Concatenating the chunks in order reproduces
//! the input exactly; all chunks but the last have exactly the requested
//! size and the last is never empty.

use vstd::prelude::*;

verus! {

/// How chunk sizes are chosen when the engine takes the parallel path.
#[derive(Clone, Copy, Debug, PartialEq, Eq, Structural)]
pub enum Strategy {
    /// One chunk per worker: chunk size is `ceil(len / workers)`, where
    /// `workers` is the hardware parallelism as queried by the caller.
    /// A value of 0 records that the query failed; one worker is then
    /// used, so the call degrades to sequential-equivalent behavior
    /// instead of producing an invalid chunk count.
    ParallelismBased { workers: usize },
    /// Chunks of the threshold's size directly; worker count is then
    /// `ceil(len / threshold)`. A threshold of 0 would mean zero-sized
    /// chunks, so the chunk size is at least 1.
    FixedSize,
}

/// `ceil(len / size)`, written over the truncating division that the
/// executable code uses.
pub open spec fn spec_div_ceil(len: nat, size: nat) -> nat
    recommends
        size > 0,
{
    if len % size == 0 {
        len / size
    } else {
        len / size + 1
    }
}

/// Number of workers actually used under `ParallelismBased { workers }`:
/// a failed query (0) falls back to a single worker.
pub open spec fn spec_effective_workers(workers: usize) -> nat {
    if workers == 0 {
        1nat
    } else {
        workers as nat
    }
}

/// Chunk size for a given strategy, input length and threshold.
pub open spec fn spec_chunk_size(strategy: Strategy, len: nat, threshold: nat) -> nat {
    match strategy {
        Strategy::ParallelismBased { workers } => {
            let ceil = spec_div_ceil(len, spec_effective_workers(workers));
            if ceil == 0 {
                1nat
            } else {
                ceil
            }
        },
        Strategy::FixedSize => {
            if threshold == 0 {
                1nat
            } else {
                threshold
            }
        },
    }
}

/// Computes `spec_chunk_size`; the result is always positive.
pub fn chunk_size_for(strategy: Strategy, len: usize, threshold: usize) -> (size: usize)
    ensures
        size == spec_chunk_size(strategy, len as nat, threshold as nat),
        size >= 1,
{
    match strategy {
        Strategy::ParallelismBased { workers } => {
            let w: usize = if workers == 0 {
                1
            } else {
                workers
            };
            let ceil: usize = if len % w == 0 {
                len / w
            } else {
                proof {
                    assert(w >= 2);
                    assert(len / w < len) by (nonlinear_arith)
                        requires
                            w >= 2,
                            len % w != 0,
                    ;
                }
                len / w + 1
            };
            if ceil == 0 {
                1
            } else {
                ceil
            }
        },
        Strategy::FixedSize => {
            if threshold == 0 {
                1
            } else {
                threshold
            }
        },
    }
}

/// Concatenation of a sequence of sequences, in order.
pub open spec fn concat_all<T>(parts: Seq<Seq<T>>) -> Seq<T>
    decreases parts.len(),
{
    if parts.len() == 0 {
        Seq::empty()
    } else {
        concat_all(parts.drop_last()) + parts.last()
    }
}

/// The element sequences of a sequence of vectors.
pub open spec fn views_of<T>(chunks: Seq<Vec<T>>) -> Seq<Seq<T>> {
    chunks.map_values(|c: Vec<T>| c@)
}

pub proof fn lemma_concat_all_push<T>(parts: Seq<Seq<T>>, part: Seq<T>)
    ensures
        concat_all(parts.push(part)) == concat_all(parts) + part,
{
    assert(parts.push(part).drop_last() =~= parts);
    assert(parts.push(part).last() == part);
}

pub proof fn lemma_concat_all_take_succ<T>(parts: Seq<Seq<T>>, j: int)
    requires
        0 <= j < parts.len(),
    ensures
        concat_all(parts.take(j + 1)) == concat_all(parts.take(j)) + parts[j],
{
    assert(parts.take(j + 1).drop_last() =~= parts.take(j));
    assert(parts.take(j + 1).last() == parts[j]);
}

/// `concat_all` of a prefix is a prefix of `concat_all` of the whole.
pub proof fn lemma_concat_all_prefix<T>(parts: Seq<Seq<T>>, j: int)
    requires
        0 <= j <= parts.len(),
    ensures
        concat_all(parts.take(j)).len() <= concat_all(parts).len(),
        forall|k: int|
            0 <= k < concat_all(parts.take(j)).len() ==> concat_all(parts.take(j))[k] == concat_all(
                parts,
            )[k],
    decreases parts.len() - j,
{
    if j == parts.len() {
        assert(parts.take(j) =~= parts);
    } else {
        lemma_concat_all_take_succ(parts, j);
        lemma_concat_all_prefix(parts, j + 1);
    }
}

/// Element `i` of part `j` sits at offset `concat_all(take(j)).len() + i`
/// of the concatenation.
pub proof fn lemma_concat_all_element<T>(parts: Seq<Seq<T>>, j: int, i: int)
    requires
        0 <= j < parts.len(),
        0 <= i < parts[j].len(),
    ensures
        0 <= concat_all(parts.take(j)).len() + i < concat_all(parts).len(),
        concat_all(parts)[concat_all(parts.take(j)).len() + i] == parts[j][i],
{
    lemma_concat_all_take_succ(parts, j);
    lemma_concat_all_prefix(parts, j + 1);
    assert(concat_all(parts.take(j + 1))[concat_all(parts.take(j)).len() + i] == parts[j][i]);
}

/// Splits `input` into chunks of `chunk_size` elements, the last chunk
/// holding the remainder. Concatenating the chunks in order reproduces
/// the input exactly, with no gaps or overlaps.
pub fn partition<T>(input: Vec<T>, chunk_size: usize) -> (chunks: Vec<Vec<T>>)
    requires
        chunk_size >= 1,
    ensures
        concat_all(views_of(chunks@)) == input@,
        chunks@.len() == spec_div_ceil(input@.len() as nat, chunk_size as nat),
        forall|j: int| 0 <= j < chunks@.len() ==> 1 <= (#[trigger] chunks@[j])@.len() <= chunk_size,
        forall|j: int|
            0 <= j < chunks@.len() - 1 ==> (#[trigger] chunks@[j])@.len() == chunk_size,
{
    let ghost input_view = input@;
    let mut rest = input;
    let mut chunks: Vec<Vec<T>> = Vec::new();

    proof {
        assert(views_of(chunks@) =~= Seq::<Seq<T>>::empty());
        assert(concat_all(views_of(chunks@)) + rest@ =~= input_view);
    }

    while rest.len() > chunk_size
        invariant
            chunk_size >= 1,
            concat_all(views_of(chunks@)) + rest@ == input_view,
            chunks@.len() * chunk_size + rest@.len() == input_view.len(),
            forall|j: int|
                0 <= j < chunks@.len() ==> (#[trigger] chunks@[j])@.len() == chunk_size,
        decreases rest@.len(),
    {
        let ghost old_chunks = chunks@;
        let ghost old_rest = rest@;
        let tail = rest.split_off(chunk_size);
        chunks.push(rest);
        rest = tail;
        proof {
            assert(views_of(chunks@) =~= views_of(old_chunks).push(old_rest.subrange(
                0,
                chunk_size as int,
            )));
            lemma_concat_all_push(views_of(old_chunks), old_rest.subrange(0, chunk_size as int));
            assert(concat_all(views_of(chunks@)) + rest@ =~= input_view);
            assert((old_chunks.len() + 1) * chunk_size == old_chunks.len() * chunk_size
                + chunk_size) by (nonlinear_arith);
        }
    }

    let ghost full_chunks = chunks@.len() as int;
    if rest.len() > 0 {
        let ghost old_chunks = chunks@;
        let ghost old_rest = rest@;
        chunks.push(rest);
        proof {
            assert(views_of(chunks@) =~= views_of(old_chunks).push(old_rest));
            lemma_concat_all_push(views_of(old_chunks), old_rest);
            assert(concat_all(views_of(chunks@)) =~= input_view);
        }
    } else {
        proof {
            assert(concat_all(views_of(chunks@)) =~= input_view);
        }
    }

    proof {
        lemma_chunk_count(full_chunks as nat, chunk_size as nat, input_view.len() as nat);
    }
    chunks
}

/// With `q` full chunks of size `size` and a remainder `r <= size`, the
/// chunk count `q + (r > 0)` equals `ceil(total / size)`.
proof fn lemma_chunk_count(q: nat, size: nat, total: nat)
    requires
        size >= 1,
        q * size <= total,
        total - q * size <= size,
    ensures
        (if total - q * size > 0 {
            q + 1
        } else {
            q
        }) == spec_div_ceil(total, size),
{
    let r = (total - q * size) as nat;
    if r == 0 {
        assert(total == q * size);
        assert(total % size == 0 && total / size == q) by (nonlinear_arith)
            requires
                size >= 1,
                total == q * size,
        ;
    } else if r == size {
        assert(total == (q + 1) * size) by (nonlinear_arith)
            requires
                total == q * size + size,
        ;
        assert(total % size == 0 && total / size == q + 1) by (nonlinear_arith)
            requires
                size >= 1,
                total == (q + 1) * size,
        ;
    } else {
        assert(total % size == r && total / size == q) by (nonlinear_arith)
            requires
                size >= 1,
                0 < r < size,
                total == q * size + r,
        ;
    }
}

} // verus!
