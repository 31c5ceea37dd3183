//! The search coordinator: validates inputs, partitions the timestamp space
//! across workers by residue class, and runs the single-worker synchronous
//! path on the calling thread.

use vstd::prelude::*;
use vstd::arithmetic::div_mod::{
    lemma_div_is_ordered, lemma_div_by_self, lemma_fundamental_div_mod,
    lemma_fundamental_div_mod_converse, lemma_mod_division_less_than_divisor,
};
use crate::digits::{dec_seq, render_dec};
use crate::errors::SearchError;
use crate::pattern::PrefixPattern;
use crate::worker::{
    exhausted_ok, found_ok, run_worker, CancellationFlag, ChannelMessage, SearchTask,
    TimestampSpan, WorkerOutcome,
};

verus! {

/// Decides whether a task is well-formed, by the definition the worker
/// relies on.
pub fn check_task(task: &SearchTask) -> (r: bool)
    ensures
        r == task.wf(),
{
    if task.stride < 1 {
        return false;
    }
    if task.counter > task.span.value {
        return false;
    }
    if task.span.start > task.span.end {
        return false;
    }
    let blen = task.buffer.len();
    if task.span.end > blen {
        return false;
    }
    let digits = render_dec(task.span.value as u64);
    let dlen = digits.len();
    if dlen != task.span.end - task.span.start {
        proof {
            assert(task.buffer@.subrange(task.span.start as int, task.span.end as int).len()
                != dec_seq(task.span.value as nat).len());
        }
        return false;
    }
    let mut k: usize = 0;
    while k < dlen
        invariant
            k <= dlen,
            dlen == dec_seq(task.span.value as nat).len(),
            digits@ == dec_seq(task.span.value as nat),
            task.span.start + dlen == task.span.end,
            task.span.end <= task.buffer@.len(),
            forall|m: int| 0 <= m < k ==> task.buffer@[task.span.start + m] == digits@[m],
        decreases dlen - k,
    {
        let idx = task.span.start + k;
        if task.buffer[idx] != digits[k] {
            proof {
                let sub = task.buffer@.subrange(task.span.start as int, task.span.end as int);
                if sub == dec_seq(task.span.value as nat) {
                    assert(sub[k as int] == task.buffer@[task.span.start + k]);
                }
            }
            return false;
        }
        k = k + 1;
    }
    proof {
        assert(task.buffer@.subrange(task.span.start as int, task.span.end as int) =~= dec_seq(
            task.span.value as nat,
        ));
    }
    true
}

/// Builds one task per worker: worker `o` gets stride `worker_count` and
/// initial counter `span.value - o`, so that together the workers visit
/// every candidate below the window start exactly once.
///
/// Fails exactly when the worker count is zero, the span's value is too
/// small to seed every worker, or the span does not render its value at its
/// place in the buffer.
pub fn make_tasks(buffer: &Vec<u8>, span: &TimestampSpan, worker_count: u32) -> (r: Result<
    Vec<SearchTask>,
    SearchError,
>)
    ensures
        match r {
            Ok(tasks) => {
                &&& worker_count >= 1
                &&& span.value as int >= worker_count - 1
                &&& tasks@.len() == worker_count
                &&& forall|o: int|
                    0 <= o < worker_count ==> {
                        let t = #[trigger] tasks@[o];
                        &&& t.buffer@ == buffer@
                        &&& t.span == *span
                        &&& t.stride == worker_count
                        &&& t.counter as int == span.value - o
                        &&& t.wf()
                    }
            },
            Err(e) => {
                &&& e == SearchError::InvalidInput
                &&& !({
                    &&& worker_count >= 1
                    &&& span.value as int >= worker_count - 1
                    &&& (SearchTask {
                        buffer: *buffer,
                        span: *span,
                        stride: worker_count,
                        counter: span.value,
                    }).wf()
                })
            },
        },
{
    if worker_count < 1 {
        return Err(SearchError::InvalidInput);
    }
    if worker_count - 1 > span.value {
        return Err(SearchError::InvalidInput);
    }
    let probe = SearchTask {
        buffer: clone_bytes(buffer),
        span: *span,
        stride: worker_count,
        counter: span.value,
    };
    if !check_task(&probe) {
        return Err(SearchError::InvalidInput);
    }
    let mut tasks: Vec<SearchTask> = Vec::new();
    let mut o: u32 = 0;
    while o < worker_count
        invariant
            o <= worker_count,
            1 <= worker_count,
            worker_count - 1 <= span.value,
            probe.wf(),
            probe.buffer@ == buffer@,
            probe.span == *span,
            probe.stride == worker_count,
            probe.counter == span.value,
            tasks@.len() == o,
            forall|j: int|
                0 <= j < o ==> {
                    let t = #[trigger] tasks@[j];
                    &&& t.buffer@ == buffer@
                    &&& t.span == *span
                    &&& t.stride == worker_count
                    &&& t.counter as int == span.value - j
                    &&& t.wf()
                },
        decreases worker_count - o,
    {
        let t = SearchTask {
            buffer: clone_bytes(buffer),
            span: *span,
            stride: worker_count,
            counter: span.value - o,
        };
        proof {
            assert(t.buffer@.subrange(t.span.start as int, t.span.end as int)
                == probe.buffer@.subrange(probe.span.start as int, probe.span.end as int));
            assert(t.wf());
        }
        tasks.push(t);
        o = o + 1;
    }
    proof {
        let base = SearchTask {
            buffer: *buffer,
            span: *span,
            stride: worker_count,
            counter: span.value,
        };
        assert(base.buffer@.subrange(base.span.start as int, base.span.end as int)
            == probe.buffer@.subrange(probe.span.start as int, probe.span.end as int));
        assert(base.wf());
    }
    Ok(tasks)
}

fn clone_bytes(v: &Vec<u8>) -> (r: Vec<u8>)
    ensures
        r@ == v@,
{
    let r = v.clone();
    proof {
        assert forall|i: int| 0 <= i < v@.len() implies r@[i] == v@[i] by {
            assert(cloned::<u8>(v[i], r[i]));
        }
        assert(r@ =~= v@);
    }
    r
}

/// The candidate that worker `o`'s `k`-th iteration tries, under the
/// partition that `make_tasks` builds from a base value and a stride.
pub open spec fn worker_candidate(base: int, stride: int, o: int, k: int) -> int {
    (base - o) - k * stride
}

/// The round-robin partition covers the space below the window's start
/// completely and without overlap: every value at most `base - stride` is
/// the candidate of exactly one worker offset at exactly one iteration.
pub proof fn lemma_partition(base: int, stride: int, v: int)
    requires
        1 <= stride,
        stride - 1 <= base,
        0 <= v <= base - stride,
    ensures
        exists|o: int, k: int|
            {
                &&& 0 <= o < stride
                &&& 1 <= k
                &&& v == #[trigger] worker_candidate(base, stride, o, k)
            },
        forall|o1: int, k1: int, o2: int, k2: int|
            (0 <= o1 < stride && 1 <= k1 && v == #[trigger] worker_candidate(base, stride, o1, k1)
                && 0 <= o2 < stride && 1 <= k2 && v == #[trigger] worker_candidate(
                base,
                stride,
                o2,
                k2,
            )) ==> (o1 == o2 && k1 == k2),
{
    let d = base - v;
    let o = d % stride;
    let k = d / stride;
    lemma_fundamental_div_mod(d, stride);
    lemma_mod_division_less_than_divisor(d, stride);
    lemma_div_is_ordered(stride, d, stride);
    lemma_div_by_self(stride);
    assert(v == worker_candidate(base, stride, o, k));
    assert forall|o1: int, k1: int, o2: int, k2: int|
        (0 <= o1 < stride && 1 <= k1 && v == #[trigger] worker_candidate(base, stride, o1, k1)
            && 0 <= o2 < stride && 1 <= k2 && v == #[trigger] worker_candidate(
            base,
            stride,
            o2,
            k2,
        )) implies (o1 == o2 && k1 == k2) by {
        lemma_fundamental_div_mod_converse(d, stride, k1, o1);
        lemma_fundamental_div_mod_converse(d, stride, k2, o2);
    }
}

/// A task built by `make_tasks` for offset `o` tries, at its `k`-th
/// iteration, exactly the partition's candidate for that offset and
/// iteration.
pub proof fn lemma_task_candidates(t: SearchTask, base: int, stride: int, o: int, k: int)
    requires
        t.counter as int == base - o,
        t.stride as int == stride,
    ensures
        crate::worker::candidate_at(t, k) == worker_candidate(base, stride, o, k),
{
}

/// Runs the search synchronously on the calling thread: the coordinator's
/// single-worker path. The task's counter seeds the descending candidate
/// sequence; its stride is the full worker count, so the path's observable
/// behavior matches one worker of the threaded search.
///
/// Rejects a malformed task or a pattern longer than the digest before any
/// hashing; maps a worker that observed cancellation to `ChannelClosed` and
/// an exhausted counter to `Underflow`.
pub fn run_sync(task: SearchTask, pattern: &PrefixPattern, cancel: &CancellationFlag) -> (r: Result<
    ChannelMessage,
    SearchError,
>)
    ensures
        match r {
            Ok(msg) => {
                &&& task.wf()
                &&& pattern.wf()
                &&& pattern.bytes@.len() <= 20
                &&& found_ok(task, *pattern, msg)
            },
            Err(e) => {
                ||| (e == SearchError::InvalidInput && !(task.wf() && pattern.wf()
                    && pattern.bytes@.len() <= 20))
                ||| (e == SearchError::ChannelClosed && task.wf() && pattern.wf()
                    && pattern.bytes@.len() <= 20)
                ||| (e == SearchError::Underflow && exhausted_ok(task, *pattern) && task.wf()
                    && pattern.wf() && pattern.bytes@.len() <= 20)
            },
        },
{
    if pattern.trailing_half && pattern.bytes.len() == 0 {
        return Err(SearchError::InvalidInput);
    }
    if pattern.bytes.len() > 20 {
        return Err(SearchError::InvalidInput);
    }
    if !check_task(&task) {
        return Err(SearchError::InvalidInput);
    }
    match run_worker(task, pattern, cancel) {
        WorkerOutcome::Found(msg) => Ok(msg),
        WorkerOutcome::Cancelled => Err(SearchError::ChannelClosed),
        WorkerOutcome::Underflow => Err(SearchError::Underflow),
    }
}

} // verus!
