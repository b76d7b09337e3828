//! Stepping rules of the two-loop producer/consumer protocol.
//!
//! The loops themselves live with the I/O: reading the upstream source,
//! writing the downstream sink, locking and blocking on the condition signal
//! are all outside work. What is decided under the lock — when to wait, when
//! to finish, what to copy, and when to wake the other side — is stated and
//! proved here, as functions from buffer state to action.

use vstd::prelude::*;

use crate::ring::{accepted_len, delivered_len, get_transition, put_transition, RingBuffer};

verus! {

/// What the consumer loop must do next, given the buffer state.
#[derive(Debug, PartialEq, Eq, Structural)]
pub enum ConsumerAction {
    /// Bytes are buffered: take some and write them downstream.
    Read,
    /// Nothing is buffered but the producer may still deliver: block on the
    /// condition signal and decide again on wake-up.
    Wait,
    /// Nothing is buffered and the buffer is closed: the stream is fully
    /// drained, terminate the loop.
    Finish,
}

/// Decides the consumer's next move. Termination requires the buffer to be
/// both empty and closed, so every byte accepted from upstream is drained
/// downstream even when the source closes while data is still in flight.
pub fn consumer_decide(rb: &RingBuffer) -> (a: ConsumerAction)
    requires
        rb.wf(),
    ensures
        a == (if !rb.model().is_empty() {
            ConsumerAction::Read
        } else if rb.model().closed {
            ConsumerAction::Finish
        } else {
            ConsumerAction::Wait
        }),
{
    if !rb.is_empty() {
        ConsumerAction::Read
    } else if rb.is_closed() {
        ConsumerAction::Finish
    } else {
        ConsumerAction::Wait
    }
}

/// Decides whether the producer must block before a `put`: exactly when the
/// buffer is full.
pub fn producer_must_wait(rb: &RingBuffer) -> (w: bool)
    requires
        rb.wf(),
    ensures
        w == rb.model().is_full(),
{
    rb.is_full()
}

/// One producer step under the lock: offer `chunk[start..]` to the buffer,
/// which accepts what fits. Returns the number of bytes accepted and whether
/// to wake the consumer; the wake-up rule of the protocol is to notify
/// exactly when the buffer went from empty to non-empty.
pub fn producer_step(rb: &mut RingBuffer, chunk: &[u8], start: usize) -> (r: (usize, bool))
    requires
        old(rb).wf(),
        start <= chunk@.len(),
    ensures
        final(rb).wf(),
        r.0 == accepted_len(old(rb).model(), chunk@.skip(start as int)),
        start + r.0 <= chunk@.len(),
        final(rb).model() == put_transition(old(rb).model(), chunk@.skip(start as int)),
        r.1 == (old(rb).model().is_empty() && r.0 > 0),
{
    proof {
        rb.lemma_wf_model();
    }
    let was_empty = rb.is_empty();
    let (_, remainder) = chunk.split_at(start);
    proof {
        assert(remainder@ =~= chunk@.skip(start as int));
    }
    let n = rb.put(remainder);
    (n, was_empty && n > 0)
}

/// One consumer step under the lock: move what is available, up to the
/// staging buffer's length, out of the ring buffer into the front of the
/// staging buffer. Returns the number of bytes delivered and whether to wake
/// the producer; the wake-up rule of the protocol is to notify exactly when
/// the buffer went from full to non-full.
pub fn consumer_step(rb: &mut RingBuffer, staging: &mut Vec<u8>) -> (r: (usize, bool))
    requires
        old(rb).wf(),
    ensures
        final(rb).wf(),
        r.0 == delivered_len(old(rb).model(), old(staging)@.len()),
        final(rb).model() == get_transition(old(rb).model(), old(staging)@.len()),
        final(staging)@ == old(rb).model().bytes.take(r.0 as int) + old(staging)@.skip(
            r.0 as int,
        ),
        r.1 == (old(rb).model().is_full() && r.0 > 0),
{
    proof {
        rb.lemma_wf_model();
    }
    let was_full = rb.is_full();
    let n = rb.get(staging);
    (n, was_full && n > 0)
}

/// The whole pipeline run in a single thread of control: feeds `input`
/// through a fresh ring buffer of capacity `capacity`, draining through a
/// staging buffer of length `staging_len`, and returns everything delivered.
/// The contract is the end-to-end guarantee: whatever the capacity and the
/// staging size, the output reproduces the input exactly, byte for byte.
pub fn pump(input: &[u8], capacity: usize, staging_len: usize) -> (out: Vec<u8>)
    requires
        capacity >= 1,
        staging_len >= 1,
    ensures
        out@ == input@,
{
    let mut rb = RingBuffer::new(capacity);
    let mut staging: Vec<u8> = vec![0u8; staging_len];
    let mut out: Vec<u8> = Vec::new();
    let mut start: usize = 0;
    while start < input.len() || !rb.is_empty()
        invariant
            rb.wf(),
            rb.model().capacity == capacity,
            capacity >= 1,
            staging@.len() == staging_len,
            staging_len >= 1,
            start <= input@.len(),
            out@ + rb.model().bytes == input@.take(start as int),
        decreases 2 * (input@.len() - start) + rb.model().bytes.len(),
    {
        if start < input.len() && !rb.is_full() {
            proof {
                rb.lemma_wf_model();
            }
            let ghost m0 = rb.model();
            let ghost out0 = out@;
            let r = producer_step(&mut rb, input, start);
            proof {
                let n = r.0 as int;
                let d = input@.skip(start as int);
                assert(rb.model().bytes == m0.bytes + d.take(n));
                assert((out0 + m0.bytes).len() == input@.take(start as int).len());
                assert(out0.len() + m0.bytes.len() == start);
                assert forall|i: int| 0 <= i < start + n implies (out0 + rb.model().bytes)[i]
                    == input@[i] by {
                    if i < start {
                        assert((out0 + m0.bytes)[i] == input@.take(start as int)[i]);
                    } else {
                        assert(d.take(n)[i - start] == input@[i]);
                    }
                }
                assert(out0 + rb.model().bytes =~= input@.take(start + r.0));
            }
            start = start + r.0;
        } else {
            proof {
                rb.lemma_wf_model();
            }
            let ghost m0 = rb.model();
            let ghost out0 = out@;
            let r = consumer_step(&mut rb, &mut staging);
            let k = r.0;
            proof {
                assert(staging@.take(k as int) =~= m0.bytes.take(k as int));
            }
            let ghost st = staging@;
            let mut i: usize = 0;
            while i < k
                invariant
                    i <= k,
                    k <= staging@.len(),
                    staging@ == st,
                    out@ == out0 + st.take(i as int),
                decreases k - i,
            {
                let b = staging[i];
                proof {
                    assert(st.take(i + 1) =~= st.take(i as int).push(st[i as int]));
                }
                out.push(b);
                i = i + 1;
            }
            proof {
                assert(out@ + rb.model().bytes =~= input@.take(start as int));
            }
        }
    }
    proof {
        assert(input@.take(start as int) =~= input@);
        assert(out@ + rb.model().bytes =~= out@);
    }
    out
}

} // verus!
