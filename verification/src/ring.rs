//! A fixed-capacity circular byte store.
//!
//! The buffer keeps a read cursor (`head`) and a fill count; the write cursor
//! is derived from them. Contracts speak of an abstract [`RingModel`]: the
//! buffered bytes as one flat FIFO sequence, the capacity, and the closed
//! flag. That the wrapping implementation meets these flat-sequence contracts
//! is exactly what makes wraparound invisible to callers.

use vstd::prelude::*;

verus! {

/// Abstract state of a ring buffer: the buffered bytes in FIFO order (oldest
/// first), the fixed capacity, and whether the producer side has closed it.
pub struct RingModel {
    pub bytes: Seq<u8>,
    pub capacity: nat,
    pub closed: bool,
}

impl RingModel {
    /// The accounting invariant: never more bytes buffered than capacity.
    pub open spec fn wf(self) -> bool {
        self.bytes.len() <= self.capacity
    }

    pub open spec fn is_empty(self) -> bool {
        self.bytes.len() == 0
    }

    pub open spec fn is_full(self) -> bool {
        self.bytes.len() == self.capacity
    }
}

/// How many bytes of `data` a `put` accepts: as many as currently fit.
pub open spec fn accepted_len(m: RingModel, data: Seq<u8>) -> nat {
    if data.len() <= m.capacity - m.bytes.len() {
        data.len()
    } else {
        (m.capacity - m.bytes.len()) as nat
    }
}

/// How many bytes a `get` into a destination of length `want` delivers.
pub open spec fn delivered_len(m: RingModel, want: nat) -> nat {
    if want <= m.bytes.len() {
        want
    } else {
        m.bytes.len()
    }
}

/// The state after a `put` of `data`: the accepted prefix is appended.
pub open spec fn put_transition(m: RingModel, data: Seq<u8>) -> RingModel {
    RingModel { bytes: m.bytes + data.take(accepted_len(m, data) as int), ..m }
}

/// The state after a `get` into a destination of length `want`: the delivered
/// prefix is removed from the front.
pub open spec fn get_transition(m: RingModel, want: nat) -> RingModel {
    RingModel { bytes: m.bytes.skip(delivered_len(m, want) as int), ..m }
}

/// The state after a `close`: only the flag changes; buffered bytes stay.
pub open spec fn close_transition(m: RingModel) -> RingModel {
    RingModel { closed: true, ..m }
}

/// One abstract operation on the buffer, as seen through the lock.
pub enum RingOp {
    Put(Seq<u8>),
    Get(nat),
    Close,
}

/// The state after a single operation.
pub open spec fn apply_op(m: RingModel, op: RingOp) -> RingModel {
    match op {
        RingOp::Put(data) => put_transition(m, data),
        RingOp::Get(want) => get_transition(m, want),
        RingOp::Close => close_transition(m),
    }
}

/// The bytes a single operation accepts from the producer side.
pub open spec fn op_accepted(m: RingModel, op: RingOp) -> Seq<u8> {
    match op {
        RingOp::Put(data) => data.take(accepted_len(m, data) as int),
        RingOp::Get(_) => Seq::empty(),
        RingOp::Close => Seq::empty(),
    }
}

/// The bytes a single operation delivers to the consumer side.
pub open spec fn op_delivered(m: RingModel, op: RingOp) -> Seq<u8> {
    match op {
        RingOp::Put(_) => Seq::empty(),
        RingOp::Get(want) => m.bytes.take(delivered_len(m, want) as int),
        RingOp::Close => Seq::empty(),
    }
}

/// The state after a whole sequence of operations.
pub open spec fn run_ops(m: RingModel, ops: Seq<RingOp>) -> RingModel
    decreases ops.len(),
{
    if ops.len() == 0 {
        m
    } else {
        run_ops(apply_op(m, ops[0]), ops.skip(1))
    }
}

/// Concatenation of all bytes accepted across a sequence of operations.
pub open spec fn accepted_concat(m: RingModel, ops: Seq<RingOp>) -> Seq<u8>
    decreases ops.len(),
{
    if ops.len() == 0 {
        Seq::empty()
    } else {
        op_accepted(m, ops[0]) + accepted_concat(apply_op(m, ops[0]), ops.skip(1))
    }
}

/// Concatenation of all bytes delivered across a sequence of operations.
pub open spec fn delivered_concat(m: RingModel, ops: Seq<RingOp>) -> Seq<u8>
    decreases ops.len(),
{
    if ops.len() == 0 {
        Seq::empty()
    } else {
        op_delivered(m, ops[0]) + delivered_concat(apply_op(m, ops[0]), ops.skip(1))
    }
}

/// FIFO law: over any sequence of `put`/`get`/`close` operations, the bytes
/// delivered so far followed by the bytes still buffered equal the bytes
/// buffered at the start followed by all bytes accepted, in order. No byte
/// accepted by a `put` is ever lost, duplicated or reordered.
pub proof fn lemma_fifo(m: RingModel, ops: Seq<RingOp>)
    ensures
        delivered_concat(m, ops) + run_ops(m, ops).bytes == m.bytes + accepted_concat(m, ops),
    decreases ops.len(),
{
    if ops.len() == 0 {
        assert(delivered_concat(m, ops) + run_ops(m, ops).bytes =~= m.bytes + accepted_concat(
            m,
            ops,
        ));
    } else {
        let op = ops[0];
        let m1 = apply_op(m, op);
        let rest = ops.skip(1);
        let d0 = op_delivered(m, op);
        let a0 = op_accepted(m, op);
        let d1 = delivered_concat(m1, rest);
        let a1 = accepted_concat(m1, rest);
        let r = run_ops(m1, rest).bytes;
        lemma_fifo(m1, rest);
        assert(d0 + m1.bytes =~= m.bytes + a0);
        assert((d0 + d1) + r =~= d0 + (d1 + r));
        assert(d0 + (m1.bytes + a1) =~= (d0 + m1.bytes) + a1);
        assert((m.bytes + a0) + a1 =~= m.bytes + (a0 + a1));
        assert(delivered_concat(m, ops) + run_ops(m, ops).bytes == m.bytes + accepted_concat(
            m,
            ops,
        ));
    }
}

/// Corollary for a whole session: starting from an empty buffer, once every
/// buffered byte has been drained again, the concatenation of all bytes
/// retrieved via `get` equals the concatenation of all bytes accepted via
/// `put`, in order.
pub proof fn lemma_fifo_drained(m: RingModel, ops: Seq<RingOp>)
    requires
        m.bytes.len() == 0,
        run_ops(m, ops).bytes.len() == 0,
    ensures
        delivered_concat(m, ops) == accepted_concat(m, ops),
{
    lemma_fifo(m, ops);
    assert(delivered_concat(m, ops) =~= delivered_concat(m, ops) + run_ops(m, ops).bytes);
    assert(accepted_concat(m, ops) =~= m.bytes + accepted_concat(m, ops));
}

/// The accounting bound survives every operation: the number of buffered
/// bytes never exceeds the capacity (and, being a sequence length, it can
/// never go negative).
pub proof fn lemma_ops_preserve_wf(m: RingModel, ops: Seq<RingOp>)
    requires
        m.wf(),
    ensures
        run_ops(m, ops).wf(),
    decreases ops.len(),
{
    if ops.len() > 0 {
        lemma_ops_preserve_wf(apply_op(m, ops[0]), ops.skip(1));
    }
}

/// With a positive capacity, `is_full` and `is_empty` are mutually exclusive.
pub proof fn lemma_full_empty_exclusive(m: RingModel)
    requires
        m.wf(),
        m.capacity > 0,
    ensures
        !(m.is_full() && m.is_empty()),
{
}

/// Closing twice has the same observable effect as closing once.
pub proof fn lemma_close_idempotent(m: RingModel)
    ensures
        close_transition(close_transition(m)) == close_transition(m),
{
}

/// The closed flag is monotone: once the buffer is closed, no later
/// operation reopens it.
pub proof fn lemma_closed_monotone(m: RingModel, ops: Seq<RingOp>)
    requires
        m.closed,
    ensures
        run_ops(m, ops).closed,
    decreases ops.len(),
{
    if ops.len() > 0 {
        lemma_closed_monotone(apply_op(m, ops[0]), ops.skip(1));
    }
}

/// Index into the backing storage for logical offset `i` from `head`,
/// for `0 <= i` and `head + i < 2 * capacity`.
spec fn wrap_index(i: int, capacity: int) -> int {
    if i < capacity {
        i
    } else {
        i - capacity
    }
}

/// A fixed-capacity circular byte store with a closed flag.
///
/// The buffer itself never blocks and never fails: `put` and `get` copy as
/// many bytes as fit or are available and report the count, leaving all
/// waiting and retrying to the caller.
pub struct RingBuffer {
    storage: Vec<u8>,
    head: usize,
    filled: usize,
    closed: bool,
}

impl RingBuffer {
    /// Well-formedness: the cursors stay inside the backing storage.
    pub closed spec fn wf(self) -> bool {
        &&& self.filled <= self.storage@.len()
        &&& if self.storage@.len() == 0 {
            self.head == 0
        } else {
            self.head < self.storage@.len()
        }
    }

    /// The abstract state this buffer currently represents.
    pub closed spec fn model(self) -> RingModel {
        RingModel {
            bytes: Seq::new(
                self.filled as nat,
                |i: int| self.storage@[wrap_index(self.head + i, self.storage@.len() as int)],
            ),
            capacity: self.storage@.len(),
            closed: self.closed,
        }
    }

    /// A well-formed buffer satisfies the accounting invariant of its model.
    pub proof fn lemma_wf_model(self)
        requires
            self.wf(),
        ensures
            self.model().wf(),
    {
    }

    /// Creates an empty, open buffer of the given capacity.
    pub fn new(capacity: usize) -> (rb: RingBuffer)
        ensures
            rb.wf(),
            rb.model() == (RingModel {
                bytes: Seq::<u8>::empty(),
                capacity: capacity as nat,
                closed: false,
            }),
    {
        let rb = RingBuffer { storage: vec![0u8; capacity], head: 0, filled: 0, closed: false };
        proof {
            assert(rb.model().bytes =~= Seq::<u8>::empty());
        }
        rb
    }

    /// True exactly when no byte is buffered.
    pub fn is_empty(&self) -> (r: bool)
        requires
            self.wf(),
        ensures
            r == self.model().is_empty(),
    {
        self.filled == 0
    }

    /// True exactly when `filled` has reached capacity.
    pub fn is_full(&self) -> (r: bool)
        requires
            self.wf(),
        ensures
            r == self.model().is_full(),
    {
        self.filled == self.storage.len()
    }

    /// True once `close` has been called.
    pub fn is_closed(&self) -> (r: bool)
        ensures
            r == self.model().closed,
    {
        self.closed
    }

    /// Copies as many bytes from `data` as currently fit into storage at the
    /// write cursor, wrapping past the end of the backing storage where the
    /// span crosses it, and returns the number of bytes accepted (possibly 0
    /// if full, possibly fewer than `data.len()` if partially full). Never
    /// blocks and never fails; the caller retries with the remainder.
    pub fn put(&mut self, data: &[u8]) -> (n: usize)
        requires
            old(self).wf(),
        ensures
            final(self).wf(),
            n == accepted_len(old(self).model(), data@),
            final(self).model() == put_transition(old(self).model(), data@),
    {
        let cap = self.storage.len();
        let room = cap - self.filled;
        let n = if data.len() <= room {
            data.len()
        } else {
            room
        };
        let mut idx = if self.head < cap - self.filled {
            self.head + self.filled
        } else {
            self.head - (cap - self.filled)
        };
        let mut j: usize = 0;
        while j < n
            invariant
                old(self).wf(),
                old(self).storage@.len() == cap,
                self.storage@.len() == cap,
                self.head == old(self).head,
                self.filled == old(self).filled,
                self.closed == old(self).closed,
                n <= data@.len(),
                self.filled + n <= cap,
                j <= n,
                idx == wrap_index(self.head + self.filled + j, cap as int),
                n > 0 ==> idx < cap,
                forall|k: int|
                    0 <= k < self.filled + j ==> self.storage@[#[trigger] wrap_index(
                        self.head + k,
                        cap as int,
                    )] == (if k < self.filled {
                        old(self).storage@[wrap_index(self.head + k, cap as int)]
                    } else {
                        data@[k - self.filled]
                    }),
            decreases n - j,
        {
            self.storage[idx] = data[j];
            proof {
                assert forall|k: int| 0 <= k < self.filled + j implies #[trigger] wrap_index(
                    self.head + k,
                    cap as int,
                ) != idx by {}
                assert(wrap_index(self.head + (self.filled + j), cap as int) == idx);
            }
            idx = idx + 1;
            if idx == cap {
                idx = 0;
            }
            j = j + 1;
        }
        self.filled = self.filled + n;
        proof {
            let m0 = old(self).model();
            let f0 = old(self).filled as int;
            let target = m0.bytes + data@.take(n as int);
            assert forall|i: int| 0 <= i < self.model().bytes.len() implies self.model().bytes[i]
                == target[i] by {
                assert(self.model().bytes[i] == self.storage@[wrap_index(
                    self.head + i,
                    cap as int,
                )]);
                if i < f0 {
                    assert(m0.bytes[i] == old(self).storage@[wrap_index(
                        self.head + i,
                        cap as int,
                    )]);
                }
            }
            assert(self.model().bytes =~= target);
            assert(self.model() == put_transition(m0, data@));
        }
        n
    }

    /// Copies as many bytes as are available, up to `dest.len()`, out of
    /// storage at the read cursor into the front of `dest`, wrapping past the
    /// end of the backing storage where the span crosses it, and returns the
    /// number of bytes delivered (possibly 0 if empty). Bytes of `dest` beyond
    /// that count are left unchanged. Never blocks and never fails.
    pub fn get(&mut self, dest: &mut Vec<u8>) -> (n: usize)
        requires
            old(self).wf(),
        ensures
            final(self).wf(),
            n == delivered_len(old(self).model(), old(dest)@.len()),
            final(self).model() == get_transition(old(self).model(), old(dest)@.len()),
            final(dest)@ == old(self).model().bytes.take(n as int) + old(dest)@.skip(n as int),
    {
        let cap = self.storage.len();
        let n = if dest.len() <= self.filled {
            dest.len()
        } else {
            self.filled
        };
        let mut idx = self.head;
        let mut j: usize = 0;
        while j < n
            invariant
                old(self).wf(),
                self == old(self),
                self.storage@.len() == cap,
                n <= old(dest)@.len(),
                n <= self.filled,
                j <= n,
                idx == wrap_index(self.head + j, cap as int),
                n > 0 ==> idx < cap,
                dest@.len() == old(dest)@.len(),
                forall|k: int| 0 <= k < j ==> dest@[k] == old(self).model().bytes[k],
                forall|k: int| j <= k < dest@.len() ==> dest@[k] == old(dest)@[k],
            decreases n - j,
        {
            let b = self.storage[idx];
            proof {
                assert(old(self).model().bytes[j as int] == self.storage@[wrap_index(
                    self.head + j,
                    cap as int,
                )]);
            }
            dest[j] = b;
            idx = idx + 1;
            if idx == cap {
                idx = 0;
            }
            j = j + 1;
        }
        self.head = if n < cap - self.head {
            self.head + n
        } else {
            self.head - (cap - n)
        };
        self.filled = self.filled - n;
        proof {
            let m0 = old(self).model();
            assert forall|i: int| 0 <= i < self.filled implies self.model().bytes[i] == m0.bytes[n
                + i] by {}
            assert(self.model().bytes =~= m0.bytes.skip(n as int));
            assert(self.model() == get_transition(m0, old(dest)@.len()));
            assert(dest@ =~= m0.bytes.take(n as int) + old(dest)@.skip(n as int));
        }
        n
    }

    /// Marks the buffer closed. Idempotent; already-buffered bytes remain
    /// readable by `get` until drained.
    pub fn close(&mut self)
        requires
            old(self).wf(),
        ensures
            final(self).wf(),
            final(self).model() == close_transition(old(self).model()),
    {
        self.closed = true;
    }
}

} // verus!
