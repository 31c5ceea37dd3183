//! The search worker: owns a buffer clone, repeatedly decrements the
//! timestamp, patches the buffer in place, rehashes, and tests the digest
//! against the prefix pattern.

use vstd::prelude::*;
use core::sync::atomic::{AtomicBool, Ordering};
use std::sync::Arc;
use crate::digest::{sha1_of, spec_hex_encode, hex_encode, DigestContext};
use crate::digits::{dec_seq, render_dec, lemma_dec_seq_len_mono};
use crate::pattern::{PrefixPattern, spec_matches};

verus! {

/// The byte span of the timestamp's decimal rendering inside the buffer,
/// together with the timestamp value it currently renders.
#[derive(Clone, Copy)]
pub struct TimestampSpan {
    pub start: usize,
    pub end: usize,
    pub value: u32,
}

/// A successful search result: the matching timestamp and the digest in
/// lowercase hex.
pub struct ChannelMessage {
    pub new_author_timestamp: u32,
    pub hash: String,
}

/// The process-wide stop signal, shared by every worker and the
/// coordinator: written once (false to true) when a match is found, read
/// before every hash attempt.
pub struct CancellationFlag {
    inner: Arc<AtomicBool>,
}

impl CancellationFlag {
    /// A fresh, unset flag.
    pub fn new() -> CancellationFlag {
        CancellationFlag { inner: Arc::new(AtomicBool::new(false)) }
    }

    /// Signals every reader to stop. Idempotent.
    pub fn set(&self) {
        self.inner.store(true, Ordering::Relaxed);
    }

    /// Whether the stop signal has been observed; another thread may set the
    /// flag at any time, so nothing is promised of the answer.
    pub fn is_set(&self) -> (r: bool) {
        self.inner.load(Ordering::Relaxed)
    }
}

/// One worker's private state: its buffer clone, the timestamp span, the
/// partition stride, and its running counter.
pub struct SearchTask {
    pub buffer: Vec<u8>,
    pub span: TimestampSpan,
    pub stride: u32,
    pub counter: u32,
}

/// The buffer with the span replaced by the decimal rendering of `v`.
pub open spec fn spec_patched(buffer: Seq<u8>, span: TimestampSpan, v: nat) -> Seq<u8> {
    buffer.take(span.start as int) + dec_seq(v) + buffer.skip(span.end as int)
}

/// The `k`-th candidate value that a task's worker will try.
pub open spec fn candidate_at(task: SearchTask, k: int) -> int {
    task.counter - k * task.stride
}

/// Whether the digest of the buffer patched with the `k`-th candidate
/// satisfies the pattern.
pub open spec fn candidate_matches(task: SearchTask, pattern: PrefixPattern, k: int) -> bool {
    spec_matches(
        pattern.bytes@,
        pattern.trailing_half,
        sha1_of(spec_patched(task.buffer@, task.span, candidate_at(task, k) as nat)),
    )
}

impl SearchTask {
    /// The span lies inside the buffer and renders the span's value
    /// canonically; the running counter never exceeds the rendered value,
    /// so a shorter rendering always fits.
    pub open spec fn wf(&self) -> bool {
        &&& self.span.start <= self.span.end <= self.buffer@.len()
        &&& self.buffer@.subrange(self.span.start as int, self.span.end as int) == dec_seq(
            self.span.value as nat,
        )
        &&& self.counter <= self.span.value
        &&& self.stride >= 1
    }

    /// Overwrites the timestamp span with the rendering of `new_value`.
    ///
    /// When the new rendering is shorter than the old one (a rollover across
    /// a power-of-ten boundary), the span is shrunk first, so no stale
    /// trailing digits of the longer rendering survive: the buffer's length
    /// decreases by exactly the digit-count delta.
    pub fn patch_timestamp(&mut self, new_value: u32)
        requires
            old(self).wf(),
            new_value <= old(self).span.value,
        ensures
            final(self).buffer@ == spec_patched(
                old(self).buffer@,
                old(self).span,
                new_value as nat,
            ),
            final(self).span.start == old(self).span.start,
            final(self).span.end == old(self).span.start + dec_seq(new_value as nat).len(),
            final(self).span.value == new_value,
            final(self).counter == old(self).counter,
            final(self).stride == old(self).stride,
            final(self).buffer@.len() == old(self).buffer@.len() - ((old(self).span.end
                - old(self).span.start) - dec_seq(new_value as nat).len()),
            final(self).buffer@.subrange(
                final(self).span.start as int,
                final(self).span.end as int,
            ) == dec_seq(new_value as nat),
            final(self).buffer@.take(final(self).span.start as int) == old(self).buffer@.take(
                old(self).span.start as int,
            ),
            final(self).buffer@.skip(final(self).span.end as int) == old(self).buffer@.skip(
                old(self).span.end as int,
            ),
    {
        let ghost pre = self.buffer@.take(self.span.start as int);
        let ghost post = self.buffer@.skip(self.span.end as int);
        let ghost oldd = dec_seq(old(self).span.value as nat);
        let digits = render_dec(new_value as u64);
        let new_len = digits.len();
        proof {
            lemma_dec_seq_len_mono(new_value as nat, old(self).span.value as nat);
            assert(self.buffer@ =~= pre + oldd + post);
        }
        let old_len = self.span.end - self.span.start;
        let delta = old_len - new_len;
        let mut removed: usize = 0;
        while removed < delta
            invariant
                removed <= delta,
                delta == old_len - new_len,
                new_len == dec_seq(new_value as nat).len(),
                old_len == oldd.len(),
                self.span == old(self).span,
                self.counter == old(self).counter,
                self.stride == old(self).stride,
                self.span.start + old_len <= old(self).buffer@.len(),
                pre.len() == self.span.start,
                self.buffer@ =~= pre + oldd.skip(removed as int) + post,
            decreases delta - removed,
        {
            self.buffer.remove(self.span.start);
            proof {
                assert(self.buffer@ =~= pre + oldd.skip(removed + 1) + post);
            }
            removed = removed + 1;
        }
        let ghost newd = digits@;
        let mut i: usize = 0;
        while i < new_len
            invariant
                i <= new_len,
                new_len == newd.len(),
                newd == digits@,
                newd == dec_seq(new_value as nat),
                delta == old_len - new_len,
                old_len == oldd.len(),
                new_len <= old_len,
                self.span == old(self).span,
                self.counter == old(self).counter,
                self.stride == old(self).stride,
                pre.len() == self.span.start,
                self.buffer@ =~= pre + newd.take(i as int) + oldd.skip(delta + i) + post,
            decreases new_len - i,
        {
            let d = digits[i];
            let blen = self.buffer.len();
            proof {
                assert(blen == self.span.start + newd.take(i as int).len() + oldd.skip(
                    delta + i,
                ).len() + post.len());
            }
            let idx = self.span.start + i;
            self.buffer[idx] = d;
            proof {
                assert(oldd.skip(delta + i).len() == new_len - i);
                assert(self.buffer@ =~= pre + newd.take(i + 1) + oldd.skip(delta + i + 1) + post);
            }
            i = i + 1;
        }
        proof {
            assert(newd.take(new_len as int) =~= newd);
            assert(oldd.skip(delta + new_len) =~= Seq::<u8>::empty());
            assert(self.buffer@ =~= pre + newd + post);
        }
        self.span.end = self.span.start + new_len;
        self.span.value = new_value;
        proof {
            assert(self.buffer@.take(self.span.start as int) =~= pre);
            assert(self.buffer@.subrange(self.span.start as int, self.span.end as int) =~= newd);
            assert(self.buffer@.skip(self.span.end as int) =~= post);
        }
    }
}

/// One iteration of the worker's hot loop: decrement the counter by the
/// stride, patch the buffer, hash it, and test the digest. Returns the
/// result message exactly when the digest satisfies the pattern.
pub fn try_candidate(
    task: &mut SearchTask,
    pattern: &PrefixPattern,
    ctx: &mut DigestContext,
) -> (r: Option<ChannelMessage>)
    requires
        old(task).wf(),
        pattern.wf(),
        pattern.bytes@.len() <= 20,
        old(task).counter >= old(task).stride,
        old(ctx)@ == Seq::<u8>::empty(),
    ensures
        final(task).wf(),
        final(task).stride == old(task).stride,
        final(task).counter == old(task).counter - old(task).stride,
        final(task).span.value == final(task).counter,
        final(task).span.start == old(task).span.start,
        final(task).buffer@ == spec_patched(
            old(task).buffer@,
            old(task).span,
            (old(task).counter - old(task).stride) as nat,
        ),
        final(task).buffer@.take(final(task).span.start as int) == old(task).buffer@.take(
            old(task).span.start as int,
        ),
        final(task).buffer@.skip(final(task).span.end as int) == old(task).buffer@.skip(
            old(task).span.end as int,
        ),
        final(ctx)@ == Seq::<u8>::empty(),
        ({
            let digest = sha1_of(
                spec_patched(
                    old(task).buffer@,
                    old(task).span,
                    (old(task).counter - old(task).stride) as nat,
                ),
            );
            match r {
                Some(msg) => {
                    &&& spec_matches(pattern.bytes@, pattern.trailing_half, digest)
                    &&& msg.new_author_timestamp == old(task).counter - old(task).stride
                    &&& msg.hash@ == spec_hex_encode(digest)
                },
                None => !spec_matches(pattern.bytes@, pattern.trailing_half, digest),
            }
        }),
{
    let cand = task.counter - task.stride;
    task.patch_timestamp(cand);
    task.counter = cand;
    ctx.update(task.buffer.as_slice());
    let digest = ctx.finalize_and_reset();
    if pattern.matches(digest.as_slice()) {
        let hash = hex_encode(digest.as_slice());
        Some(ChannelMessage { new_author_timestamp: cand, hash })
    } else {
        None
    }
}

/// What a worker's run ended in.
pub enum WorkerOutcome {
    /// A candidate's digest satisfied the pattern; the flag was set and the
    /// message holds the candidate and its digest.
    Found(ChannelMessage),
    /// The cancellation flag was observed set; nothing was emitted.
    Cancelled,
    /// Decrementing the counter again would go below zero; nothing was
    /// emitted. A fatal condition: the search space was exhausted downward.
    Underflow,
}

/// What the `Found` outcome promises: the message names the first candidate
/// in the task's descending sequence whose digest satisfies the pattern, and
/// carries that digest in lowercase hex.
pub open spec fn found_ok(task: SearchTask, pattern: PrefixPattern, msg: ChannelMessage) -> bool {
    exists|k: int|
        {
            &&& 1 <= k
            &&& candidate_at(task, k) == msg.new_author_timestamp as int
            &&& #[trigger] candidate_matches(task, pattern, k)
            &&& forall|j: int| 1 <= j < k ==> !candidate_matches(task, pattern, j)
            &&& msg.hash@ == spec_hex_encode(
                sha1_of(spec_patched(task.buffer@, task.span, msg.new_author_timestamp as nat)),
            )
        }
}

/// What the `Underflow` outcome promises: some number of candidates were
/// tried and none matched, and the counter then fell below the stride.
pub open spec fn exhausted_ok(task: SearchTask, pattern: PrefixPattern) -> bool {
    exists|i: int|
        {
            &&& 0 <= i
            &&& 0 <= #[trigger] candidate_at(task, i) < task.stride
            &&& forall|j: int| 1 <= j <= i ==> !candidate_matches(task, pattern, j)
        }
}

/// Runs one worker to completion.
///
/// Per iteration: if the cancellation flag is observed set, stop at once and
/// emit nothing; otherwise take the next candidate (counter minus stride),
/// patch, hash and test. On a match, set the cancellation flag and return
/// the message: it names the first candidate in this worker's descending
/// sequence whose digest satisfies the pattern.
pub fn run_worker(task: SearchTask, pattern: &PrefixPattern, cancel: &CancellationFlag) -> (r:
    WorkerOutcome)
    requires
        task.wf(),
        pattern.wf(),
        pattern.bytes@.len() <= 20,
    ensures
        match r {
            WorkerOutcome::Found(msg) => found_ok(task, *pattern, msg),
            WorkerOutcome::Cancelled => true,
            WorkerOutcome::Underflow => exhausted_ok(task, *pattern),
        },
{
    let mut t = task;
    let mut ctx = DigestContext::new();
    let ghost mut i: int = 0;
    loop
        invariant
            t.wf(),
            pattern.wf(),
            pattern.bytes@.len() <= 20,
            t.stride == task.stride,
            0 <= i,
            t.counter as int == candidate_at(task, i),
            t.buffer@.take(t.span.start as int) == task.buffer@.take(task.span.start as int),
            t.buffer@.skip(t.span.end as int) == task.buffer@.skip(task.span.end as int),
            ctx@ == Seq::<u8>::empty(),
            forall|j: int| 1 <= j <= i ==> !candidate_matches(task, *pattern, j),
        decreases t.counter,
    {
        if cancel.is_set() {
            return WorkerOutcome::Cancelled;
        }
        if t.counter < t.stride {
            proof {
                assert(0 <= candidate_at(task, i) < task.stride);
            }
            return WorkerOutcome::Underflow;
        }
        let ghost t_before = t;
        let r = try_candidate(&mut t, pattern, &mut ctx);
        proof {
            assert((i + 1) * task.stride == i * task.stride + task.stride) by (nonlinear_arith);
            assert(t.counter as int == candidate_at(task, i + 1));
            assert(spec_patched(t_before.buffer@, t_before.span, t.counter as nat) =~= spec_patched(
                task.buffer@,
                task.span,
                t.counter as nat,
            ));
        }
        match r {
            Some(msg) => {
                proof {
                    assert(candidate_matches(task, *pattern, i + 1));
                }
                cancel.set();
                return WorkerOutcome::Found(msg);
            },
            None => {
                proof {
                    assert(!candidate_matches(task, *pattern, i + 1));
                    i = i + 1;
                }
            },
        }
    }
}

} // verus!
