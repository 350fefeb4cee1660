use vstd::prelude::*;

verus! {

/// A message that the [`Arbiter`] can process: it exposes a global sequence
/// number and the identifier of the redundant source line that delivered it.
pub trait Arbitratable: Sized + Clone {
    /// The sequence number, as seen by specifications.
    spec fn spec_seq_num(&self) -> u64;

    /// The source-line identifier, as seen by specifications.
    spec fn spec_source_line(&self) -> u8;

    /// Returns the global sequence number of the message.
    fn seq_num(&self) -> (r: u64)
        ensures
            r == self.spec_seq_num(),
    ;

    /// Returns the identifier of the source line this message came from.
    fn source_line(&self) -> (r: u8)
        ensures
            r == self.spec_source_line(),
    ;
}

/// The failures that [`Arbiter::receive_message`] can report.
#[derive(Debug, PartialEq, Eq)]
pub enum ArbiterError {
    /// The submitted message names a source line outside the configured range.
    OutOfBoundsSourceLine,
    /// Every source line has advanced past the missing sequence number by at
    /// least the configured threshold, so the gap can no longer be filled.
    UnrecoverableGap,
}

/// The larger of two sequence numbers.
pub open spec fn max64(a: u64, b: u64) -> u64 {
    if a >= b {
        a
    } else {
        b
    }
}

/// The length of the longest prefix of `buf` whose sequence numbers run
/// contiguously `next, next + 1, next + 2, ...`.
pub open spec fn run_len<T: Arbitratable>(buf: Seq<T>, next: int) -> nat
    decreases buf.len(),
{
    if buf.len() > 0 && buf[0].spec_seq_num() == next {
        (1 + run_len(buf.drop_first(), next + 1)) as nat
    } else {
        0
    }
}

/// `buf` with `m` inserted at its sequence number's place: the result stays
/// sorted by sequence number, and an entry that already carries the same
/// sequence number is overwritten.
pub open spec fn insert_by_seq<T: Arbitratable>(buf: Seq<T>, m: T) -> Seq<T>
    decreases buf.len(),
{
    if buf.len() == 0 {
        seq![m]
    } else if m.spec_seq_num() < buf[0].spec_seq_num() {
        seq![m] + buf
    } else if m.spec_seq_num() == buf[0].spec_seq_num() {
        seq![m] + buf.drop_first()
    } else {
        seq![buf[0]] + insert_by_seq(buf.drop_first(), m)
    }
}

/// The arbiter's state as the ordering laws see it: the release point and the
/// pending buffer. The per-line high-water marks sit beside this and only
/// feed the gap check, so they are kept out of the model.
#[verifier::ext_equal]
#[verifier::reject_recursive_types(T)]
pub struct ArbiterModel<T> {
    /// The highest sequence number already released, in strict ascending
    /// contiguous order; 0 means nothing has been released yet.
    pub released: int,
    /// The messages ahead of the next expected number, in strictly ascending
    /// sequence-number order, at most one per sequence number.
    pub buffer: Seq<T>,
}

impl<T: Arbitratable> ArbiterModel<T> {
    /// The model's invariant: the release point is a count, and the buffer is
    /// strictly sorted by sequence number and holds only messages strictly
    /// ahead of the next expected one.
    pub open spec fn wf(self) -> bool {
        &&& self.released >= 0
        &&& forall|i: int, j: int|
            0 <= i < j < self.buffer.len() ==> #[trigger] self.buffer[i].spec_seq_num()
                < #[trigger] self.buffer[j].spec_seq_num()
        &&& forall|i: int|
            0 <= i < self.buffer.len() ==> #[trigger] self.buffer[i].spec_seq_num()
                > self.released + 1
    }

    /// What absorbing `msg` releases downstream: the message itself when it is
    /// the next expected one, followed by the contiguous run of buffered
    /// messages that it unlocks; nothing otherwise.
    pub open spec fn emitted(self, msg: T) -> Seq<T> {
        if msg.spec_seq_num() == self.released + 1 {
            seq![msg] + self.buffer.take(run_len(self.buffer, self.released + 2) as int)
        } else {
            Seq::<T>::empty()
        }
    }

    /// The state after absorbing `msg`: a next expected message advances the
    /// release point past the run it unlocks, a future message is buffered,
    /// and a stale or duplicate message changes nothing.
    pub open spec fn step(self, msg: T) -> Self {
        let s = msg.spec_seq_num();
        if s == self.released + 1 {
            let k = run_len(self.buffer, self.released + 2) as int;
            ArbiterModel { released: self.released + 1 + k, buffer: self.buffer.skip(k) }
        } else if s > self.released + 1 {
            ArbiterModel { released: self.released, buffer: insert_by_seq(self.buffer, msg) }
        } else {
            self
        }
    }

    /// The state after absorbing the messages of `msgs`, first to last.
    pub open spec fn run(self, msgs: Seq<T>) -> Self
        decreases msgs.len(),
    {
        if msgs.len() == 0 {
            self
        } else {
            self.step(msgs[0]).run(msgs.drop_first())
        }
    }

    /// Everything that absorbing the messages of `msgs`, first to last,
    /// releases downstream, concatenated in order.
    pub open spec fn run_emitted(self, msgs: Seq<T>) -> Seq<T>
        decreases msgs.len(),
    {
        if msgs.len() == 0 {
            Seq::<T>::empty()
        } else {
            self.emitted(msgs[0]) + self.step(msgs[0]).run_emitted(msgs.drop_first())
        }
    }

    /// The state that absorbing exactly the messages of `arrived` leaves
    /// behind, whatever the order of their arrival: every sequence number up
    /// to the release point arrived, the one right past it did not, and the
    /// buffer holds exactly the arrivals that are still ahead of it.
    pub open spec fn consistent_with(self, arrived: Set<T>) -> bool {
        &&& self.wf()
        &&& forall|k: int|
            1 <= k <= self.released ==> #[trigger] seq_nums_of(arrived).contains(k)
        &&& !seq_nums_of(arrived).contains(self.released + 1)
        &&& forall|i: int|
            0 <= i < self.buffer.len() ==> arrived.contains(#[trigger] self.buffer[i])
        &&& forall|m: T|
            #[trigger] arrived.contains(m) && m.spec_seq_num() > self.released + 1
                ==> self.buffer.contains(m)
    }
}

/// Reassembles an in-order stream of sequence-numbered messages that arrive
/// out of order from several redundant source lines.
#[derive(Debug)]
pub struct Arbiter<T: Arbitratable> {
    /// The highest sequence number already released downstream, in strict
    /// ascending contiguous order; 0 means nothing has been released yet.
    pub latest_inorder_seq_num: u64,
    /// Per source line, the highest sequence number seen so far.
    pub latest_seq_nums: Vec<u64>,
    /// Messages ahead of the next expected number, in strictly ascending
    /// sequence-number order, at most one per sequence number.
    pub buffer: Vec<T>,
    /// How far every line must advance past a gap before it is declared lost.
    pub unrecoverable_threshold: u64,
}

impl<T: Arbitratable> Arbiter<T> {
    /// The internal invariant: the buffer is strictly sorted by sequence
    /// number and holds only messages strictly ahead of the next expected one.
    pub open spec fn wf(self) -> bool {
        &&& forall|i: int, j: int|
            0 <= i < j < self.buffer@.len() ==> #[trigger] self.buffer@[i].spec_seq_num()
                < #[trigger] self.buffer@[j].spec_seq_num()
        &&& forall|i: int|
            0 <= i < self.buffer@.len() ==> #[trigger] self.buffer@[i].spec_seq_num()
                > self.latest_inorder_seq_num + 1
    }

    /// Whether the message names a source line within the configured range.
    pub open spec fn line_ok(self, msg: T) -> bool {
        (msg.spec_source_line() as int) < self.latest_seq_nums@.len()
    }

    /// The per-line high-water marks after absorbing `msg`.
    pub open spec fn highs_after(self, msg: T) -> Seq<u64> {
        let l = msg.spec_source_line() as int;
        self.latest_seq_nums@.update(l, max64(self.latest_seq_nums@[l], msg.spec_seq_num()))
    }

    /// The release point and pending buffer, as [`ArbiterModel`] carries them.
    pub open spec fn model(self) -> ArbiterModel<T> {
        ArbiterModel { released: self.latest_inorder_seq_num as int, buffer: self.buffer@ }
    }

    /// What one call releases downstream for `msg`.
    pub open spec fn emitted(self, msg: T) -> Seq<T> {
        self.model().emitted(msg)
    }

    /// The arbiter's invariant carries over to its model.
    pub proof fn lemma_model_wf(self)
        requires
            self.wf(),
        ensures
            self.model().wf(),
    {
        let m = self.model();
        assert forall|i: int, j: int|
            0 <= i < j < m.buffer.len() implies #[trigger] m.buffer[i].spec_seq_num()
            < #[trigger] m.buffer[j].spec_seq_num() by {
            assert(m.buffer[i] == self.buffer@[i]);
            assert(m.buffer[j] == self.buffer@[j]);
        }
        assert forall|i: int|
            0 <= i < m.buffer.len() implies #[trigger] m.buffer[i].spec_seq_num() > m.released
            + 1 by {
            assert(m.buffer[i] == self.buffer@[i]);
        }
    }

    /// How one accepted message transforms the arbiter's state: the high-water
    /// mark of its source line, and the release point and pending buffer as
    /// one step of the model.
    pub open spec fn steps_to(pre: Self, msg: T, post: Self) -> bool {
        &&& pre.line_ok(msg)
        &&& post.latest_seq_nums@ == pre.highs_after(msg)
        &&& post.model() == pre.model().step(msg)
        &&& post.unrecoverable_threshold == pre.unrecoverable_threshold
    }

    /// Whether the sequence number still missing can no longer arrive: the
    /// buffer is waiting on a gap, and every source line's high-water mark has
    /// advanced at least the configured threshold past it.
    pub open spec fn gap_unrecoverable(self) -> bool {
        self.buffer@.len() > 0 && forall|i: int|
            0 <= i < self.latest_seq_nums@.len() ==> #[trigger] self.latest_seq_nums@[i]
                >= self.latest_inorder_seq_num + 1 + self.unrecoverable_threshold
    }

    /// Creates a new Arbiter.
    ///
    /// * `num_lines`: The total number of source lines to track.
    /// * `unrecoverable_threshold`: The number of messages past a gap for all
    ///   lines before the gap is considered unrecoverable.
    pub fn new(num_lines: usize, unrecoverable_threshold: u64) -> (r: Self)
        ensures
            r.wf(),
            r.latest_inorder_seq_num == 0,
            r.buffer@ == Seq::<T>::empty(),
            r.latest_seq_nums@.len() == num_lines,
            forall|i: int| 0 <= i < num_lines ==> r.latest_seq_nums@[i] == 0,
            r.unrecoverable_threshold == unrecoverable_threshold,
    {
        let mut latest_seq_nums: Vec<u64> = Vec::new();
        let mut i: usize = 0;
        while i < num_lines
            invariant
                i <= num_lines,
                latest_seq_nums@.len() == i,
                forall|j: int| 0 <= j < i ==> latest_seq_nums@[j] == 0,
            decreases num_lines - i,
        {
            latest_seq_nums.push(0);
            i = i + 1;
        }
        let r = Arbiter {
            latest_inorder_seq_num: 0,
            latest_seq_nums,
            buffer: Vec::new(),
            unrecoverable_threshold,
        };
        proof {
            assert(r.buffer@ =~= Seq::<T>::empty());
        }
        r
    }

    /// Feeds one message to the arbiter. The message is rejected when its
    /// source line is out of range; otherwise it is released at once when it
    /// is the next expected one (together with the buffered run it unlocks),
    /// buffered when it is ahead of the next expected one, and discarded when
    /// it is stale or a duplicate. After every accepted message the gap the
    /// buffer is waiting on is checked: when every line's high-water mark has
    /// moved the configured threshold past it, `UnrecoverableGap` is reported
    /// instead of the released run, with the state mutation left in place.
    pub fn receive_message(&mut self, msg: T) -> (r: Result<Vec<T>, ArbiterError>)
        requires
            old(self).wf(),
        ensures
            final(self).wf(),
            !old(self).line_ok(msg) ==> *final(self) == *old(self) && r == Result::<
                Vec<T>,
                ArbiterError,
            >::Err(ArbiterError::OutOfBoundsSourceLine),
            old(self).line_ok(msg) ==> {
                &&& Self::steps_to(*old(self), msg, *final(self))
                &&& (r matches Ok(v) ==> v@ == old(self).emitted(msg))
                &&& ((r matches Ok(v)) <==> !final(self).gap_unrecoverable())
                &&& (r matches Err(e) ==> e == ArbiterError::UnrecoverableGap)
            },
    {
        let ghost pre = *old(self);
        let ghost gmsg = msg;
        let mut return_messages: Vec<T> = Vec::new();

        // Prevent a panic by checking that the source line is valid.
        let line_idx = msg.source_line() as usize;
        if line_idx >= self.latest_seq_nums.len() {
            return Err(ArbiterError::OutOfBoundsSourceLine);
        }

        // Update the high-water mark of the source line.
        let seq = msg.seq_num();
        if self.latest_seq_nums[line_idx] < seq {
            self.latest_seq_nums[line_idx] = seq;
        }
        proof {
            assert(self.latest_seq_nums@ =~= pre.highs_after(gmsg));
        }

        if seq > self.latest_inorder_seq_num {
            if seq == self.latest_inorder_seq_num + 1 {
                // The next expected message: release it and whatever buffered
                // run it unlocks.
                self.latest_inorder_seq_num = seq;
                return_messages.push(msg);
                let mut drained = self.process_buffer();
                return_messages.append(&mut drained);
                proof {
                    lemma_run_len_prefix(pre.buffer@, pre.latest_inorder_seq_num + 2);
                    assert(return_messages@ =~= pre.emitted(gmsg));
                    assert(self.model() =~= pre.model().step(gmsg));
                }
            } else {
                // A future message: a gap separates it from the release point.
                self.insert_buffered(msg);
                proof {
                    assert(return_messages@ =~= pre.emitted(gmsg));
                    assert(self.model() =~= pre.model().step(gmsg));
                }
            }
        } else {
            // A stale or duplicate message: discard it.
            proof {
                assert(return_messages@ =~= pre.emitted(gmsg));
                assert(self.model() =~= pre.model().step(gmsg));
            }
        }

        // Check whether the gap the buffer now waits on is unrecoverable.
        match self.check_gaps() {
            Ok(()) => Ok(return_messages),
            Err(e) => Err(e),
        }
    }

    /// Checks whether the gap the buffer is waiting on is unrecoverable.
    fn check_gaps(&self) -> (r: Result<(), ArbiterError>)
        requires
            self.wf(),
        ensures
            self.gap_unrecoverable() ==> r == Result::<(), ArbiterError>::Err(
                ArbiterError::UnrecoverableGap,
            ),
            !self.gap_unrecoverable() ==> r == Result::<(), ArbiterError>::Ok(()),
    {
        // If the buffer is empty, there are no gaps to check.
        if self.buffer.len() == 0 {
            return Ok(());
        }
        // The buffer holds a message strictly ahead of the next expected one,
        // so the next expected sequence number itself fits in a u64.
        proof {
            assert(self.buffer@[0].spec_seq_num() > self.latest_inorder_seq_num + 1);
        }
        let gap_seq_num: u64 = self.latest_inorder_seq_num + 1;
        if self.unrecoverable_threshold > u64::MAX - gap_seq_num {
            // No representable high-water mark can reach past the gap by the
            // whole threshold, so no line has moved far enough.
            if self.latest_seq_nums.len() == 0 {
                return Err(ArbiterError::UnrecoverableGap);
            }
            proof {
                assert(self.latest_seq_nums@[0] < self.latest_inorder_seq_num + 1
                    + self.unrecoverable_threshold);
            }
            return Ok(());
        }
        let limit: u64 = gap_seq_num + self.unrecoverable_threshold;
        let mut i: usize = 0;
        while i < self.latest_seq_nums.len()
            invariant
                i <= self.latest_seq_nums@.len(),
                limit == self.latest_inorder_seq_num + 1 + self.unrecoverable_threshold,
                forall|j: int| 0 <= j < i ==> #[trigger] self.latest_seq_nums@[j] >= limit,
            decreases self.latest_seq_nums@.len() - i,
        {
            if self.latest_seq_nums[i] < limit {
                return Ok(());
            }
            i = i + 1;
        }
        Err(ArbiterError::UnrecoverableGap)
    }

    /// Inserts a message that arrived ahead of the next expected one into the
    /// pending buffer, keeping it sorted; a message already buffered under the
    /// same sequence number is overwritten.
    fn insert_buffered(&mut self, msg: T)
        requires
            old(self).wf(),
            msg.spec_seq_num() > old(self).latest_inorder_seq_num + 1,
        ensures
            final(self).wf(),
            final(self).buffer@ == insert_by_seq(old(self).buffer@, msg),
            final(self).latest_inorder_seq_num == old(self).latest_inorder_seq_num,
            final(self).latest_seq_nums == old(self).latest_seq_nums,
            final(self).unrecoverable_threshold == old(self).unrecoverable_threshold,
    {
        let ghost buf0 = self.buffer@;
        let mut i: usize = 0;
        while i < self.buffer.len() && self.buffer[i].seq_num() < msg.seq_num()
            invariant
                i <= self.buffer@.len(),
                self.buffer@ == buf0,
                forall|j: int|
                    0 <= j < i ==> #[trigger] buf0[j].spec_seq_num() < msg.spec_seq_num(),
            decreases self.buffer@.len() - i,
        {
            i = i + 1;
        }
        proof {
            lemma_insert_by_seq_at(buf0, msg, i as int);
        }
        if i < self.buffer.len() && self.buffer[i].seq_num() == msg.seq_num() {
            self.buffer[i] = msg;
            proof {
                assert(self.buffer@ =~= insert_by_seq(buf0, msg));
            }
        } else {
            self.buffer.insert(i, msg);
            proof {
                assert(self.buffer@ =~= insert_by_seq(buf0, msg));
            }
        }
        proof {
            lemma_insert_by_seq_sorted(buf0, msg, old(self).latest_inorder_seq_num as int);
        }
    }

    /// Drains the buffered messages that are now in order: removes the longest
    /// contiguous run that directly extends the release point, advances the
    /// release point past it, and returns the run in ascending order.
    fn process_buffer(&mut self) -> (r: Vec<T>)
        requires
            forall|i: int, j: int|
                0 <= i < j < old(self).buffer@.len() ==> #[trigger] old(
                    self,
                ).buffer@[i].spec_seq_num() < #[trigger] old(self).buffer@[j].spec_seq_num(),
            forall|i: int|
                0 <= i < old(self).buffer@.len() ==> #[trigger] old(self).buffer@[i].spec_seq_num()
                    > old(self).latest_inorder_seq_num,
        ensures
            final(self).wf(),
            ({
                let k = run_len(old(self).buffer@, old(self).latest_inorder_seq_num + 1) as int;
                &&& r@ == old(self).buffer@.take(k)
                &&& final(self).buffer@ == old(self).buffer@.skip(k)
                &&& final(self).latest_inorder_seq_num == old(self).latest_inorder_seq_num + k
            }),
            final(self).latest_seq_nums == old(self).latest_seq_nums,
            final(self).unrecoverable_threshold == old(self).unrecoverable_threshold,
    {
        let mut return_messages: Vec<T> = Vec::new();
        let ghost buf0 = self.buffer@;
        let ghost rel0 = self.latest_inorder_seq_num;
        let ghost highs0 = self.latest_seq_nums;
        let ghost th0 = self.unrecoverable_threshold;
        let ghost mut j: int = 0;
        while self.buffer.len() > 0 && self.buffer[0].seq_num() == self.latest_inorder_seq_num + 1
            invariant
                0 <= j <= buf0.len(),
                self.buffer@ == buf0.skip(j),
                self.latest_inorder_seq_num == rel0 + j,
                return_messages@ == buf0.take(j),
                self.latest_seq_nums == highs0,
                self.unrecoverable_threshold == th0,
                forall|i: int| 0 <= i < j ==> #[trigger] buf0[i].spec_seq_num() == rel0 + 1 + i,
                forall|i: int, jj: int|
                    0 <= i < jj < buf0.len() ==> #[trigger] buf0[i].spec_seq_num()
                        < #[trigger] buf0[jj].spec_seq_num(),
                forall|i: int| 0 <= i < buf0.len() ==> #[trigger] buf0[i].spec_seq_num() > rel0,
                forall|i: int|
                    0 <= i < self.buffer@.len() ==> #[trigger] self.buffer@[i].spec_seq_num()
                        > self.latest_inorder_seq_num,
            decreases self.buffer@.len(),
        {
            proof {
                assert(self.buffer@[0] == buf0[j]);
            }
            let val = self.buffer.remove(0);
            self.latest_inorder_seq_num = val.seq_num();
            return_messages.push(val);
            proof {
                j = j + 1;
                assert(self.buffer@ =~= buf0.skip(j));
                assert(return_messages@ =~= buf0.take(j));
                assert forall|i: int|
                    0 <= i < self.buffer@.len() implies #[trigger] self.buffer@[i].spec_seq_num()
                    > self.latest_inorder_seq_num by {
                    assert(self.buffer@[i] == buf0[j + i]);
                    assert(buf0[j - 1].spec_seq_num() < buf0[j + i].spec_seq_num());
                }
            }
        }
        proof {
            if self.buffer@.len() > 0 {
                assert(self.buffer@[0] == buf0[j]);
            }
            lemma_run_len_char(buf0, rel0 + 1, j);
            if self.buffer@.len() > 0 {
                assert(buf0[j].spec_seq_num() != rel0 + 1 + j);
                if j > 0 {
                    assert(buf0[j - 1].spec_seq_num() == rel0 + j);
                    assert(buf0[j - 1].spec_seq_num() < buf0[j].spec_seq_num());
                }
                assert(buf0[j].spec_seq_num() > rel0 + j + 1);
                assert forall|i: int|
                    0 <= i < self.buffer@.len() implies #[trigger] self.buffer@[i].spec_seq_num()
                    > self.latest_inorder_seq_num + 1 by {
                    assert(self.buffer@[i] == buf0[j + i]);
                    if i > 0 {
                        assert(buf0[j].spec_seq_num() < buf0[j + i].spec_seq_num());
                    }
                }
            }
        }
        return_messages
    }
}

/// `run_len(buf, start)` counts exactly the indices `i` with
/// `buf[i].spec_seq_num() == start + i` up to the first mismatch.
proof fn lemma_run_len_char<T: Arbitratable>(buf: Seq<T>, start: int, j: int)
    requires
        0 <= j <= buf.len(),
        forall|i: int| 0 <= i < j ==> #[trigger] buf[i].spec_seq_num() == start + i,
        j == buf.len() || buf[j].spec_seq_num() != start + j,
    ensures
        run_len(buf, start) == j,
    decreases buf.len(),
{
    if buf.len() > 0 && buf[0].spec_seq_num() == start {
        assert(j >= 1) by {
            if j == 0 {
                assert(buf[0].spec_seq_num() != start);
            }
        }
        assert(forall|i: int| 0 <= i < j - 1 ==> buf.drop_first()[i] == buf[i + 1]);
        if j < buf.len() {
            assert(buf.drop_first()[j - 1] == buf[j]);
        }
        lemma_run_len_char(buf.drop_first(), start + 1, j - 1);
    } else {
        if j >= 1 {
            assert(buf[0].spec_seq_num() == start);
        }
    }
}

/// The contiguous run that `run_len` measures: it never exceeds the buffer's
/// length, and each of its members carries the expected sequence number.
proof fn lemma_run_len_prefix<T: Arbitratable>(buf: Seq<T>, start: int)
    ensures
        run_len(buf, start) <= buf.len(),
        forall|i: int|
            0 <= i < run_len(buf, start) ==> #[trigger] buf[i].spec_seq_num() == start + i,
        run_len(buf, start) < buf.len() ==> buf[run_len(buf, start) as int].spec_seq_num() != start
            + run_len(buf, start),
    decreases buf.len(),
{
    if buf.len() > 0 && buf[0].spec_seq_num() == start {
        lemma_run_len_prefix(buf.drop_first(), start + 1);
        assert forall|i: int|
            0 <= i < run_len(buf, start) implies #[trigger] buf[i].spec_seq_num() == start
            + i by {
            if i > 0 {
                assert(buf.drop_first()[i - 1] == buf[i]);
            }
        }
        if run_len(buf, start) < buf.len() {
            assert(buf.drop_first()[run_len(buf, start) - 1] == buf[run_len(buf, start) as int]);
        }
    }
}

/// `insert_by_seq` computed at the insertion point `i` that a scan finds:
/// an overwrite when the sequence number is already present there, a plain
/// insertion otherwise.
proof fn lemma_insert_by_seq_at<T: Arbitratable>(buf: Seq<T>, m: T, i: int)
    requires
        0 <= i <= buf.len(),
        forall|k: int| 0 <= k < i ==> #[trigger] buf[k].spec_seq_num() < m.spec_seq_num(),
        i < buf.len() ==> buf[i].spec_seq_num() >= m.spec_seq_num(),
    ensures
        (i < buf.len() && buf[i].spec_seq_num() == m.spec_seq_num()) ==> insert_by_seq(buf, m)
            == buf.update(i, m),
        !(i < buf.len() && buf[i].spec_seq_num() == m.spec_seq_num()) ==> insert_by_seq(buf, m)
            == buf.insert(i, m),
    decreases buf.len(),
{
    if buf.len() == 0 {
        assert(insert_by_seq(buf, m) =~= buf.insert(0, m));
    } else if i == 0 {
        if buf[0].spec_seq_num() == m.spec_seq_num() {
            assert(insert_by_seq(buf, m) =~= buf.update(0, m));
        } else {
            assert(insert_by_seq(buf, m) =~= buf.insert(0, m));
        }
    } else {
        assert(buf[0].spec_seq_num() < m.spec_seq_num());
        lemma_insert_by_seq_at(buf.drop_first(), m, i - 1);
        assert(forall|k: int|
            0 <= k < i - 1 ==> #[trigger] buf.drop_first()[k].spec_seq_num()
                < m.spec_seq_num()) by {
            assert(forall|k: int| 0 <= k < i - 1 ==> buf.drop_first()[k] == buf[k + 1]);
        }
        if i < buf.len() && buf[i].spec_seq_num() == m.spec_seq_num() {
            assert(insert_by_seq(buf, m) =~= buf.update(i, m));
        } else {
            assert(insert_by_seq(buf, m) =~= buf.insert(i, m));
        }
    }
}

/// Inserting a message strictly ahead of the release point into a well-formed
/// buffer keeps the buffer sorted and strictly ahead of the release point.
proof fn lemma_insert_by_seq_sorted<T: Arbitratable>(buf: Seq<T>, m: T, released: int)
    requires
        forall|i: int, j: int|
            0 <= i < j < buf.len() ==> #[trigger] buf[i].spec_seq_num()
                < #[trigger] buf[j].spec_seq_num(),
        forall|i: int| 0 <= i < buf.len() ==> #[trigger] buf[i].spec_seq_num() > released + 1,
        m.spec_seq_num() > released + 1,
    ensures
        forall|i: int, j: int|
            0 <= i < j < insert_by_seq(buf, m).len() ==> #[trigger] insert_by_seq(
                buf,
                m,
            )[i].spec_seq_num() < #[trigger] insert_by_seq(buf, m)[j].spec_seq_num(),
        forall|i: int|
            0 <= i < insert_by_seq(buf, m).len() ==> #[trigger] insert_by_seq(
                buf,
                m,
            )[i].spec_seq_num() > released + 1,
    decreases buf.len(),
{
    if buf.len() == 0 {
    } else if m.spec_seq_num() < buf[0].spec_seq_num() {
    } else if m.spec_seq_num() == buf[0].spec_seq_num() {
        assert(forall|k: int| 0 <= k < buf.len() - 1 ==> buf.drop_first()[k] == buf[k + 1]);
    } else {
        assert(forall|k: int| 0 <= k < buf.len() - 1 ==> buf.drop_first()[k] == buf[k + 1]);
        lemma_insert_by_seq_sorted(buf.drop_first(), m, released);
        let r = insert_by_seq(buf, m);
        let rr = insert_by_seq(buf.drop_first(), m);
        assert(forall|k: int| 0 <= k < rr.len() ==> r[k + 1] == rr[k]);
        assert(rr.len() > 0 && (rr[0] == m || rr[0] == buf.drop_first()[0]));
    }
}


/// The sequence numbers carried by a set of messages.
pub open spec fn seq_nums_of<T: Arbitratable>(arrived: Set<T>) -> Set<int> {
    Set::new(|k: int| exists|m: T| #[trigger] arrived.contains(m) && m.spec_seq_num() == k)
}

/// Law (idempotent duplicates): once a message was absorbed, absorbing a
/// second copy that carries the same sequence number emits nothing, and the
/// second submission does not move the release point beyond what the first
/// one achieved.
pub proof fn lemma_duplicate_is_silent<T: Arbitratable>(m: ArbiterModel<T>, msg: T, dup: T)
    requires
        m.wf(),
        dup.spec_seq_num() == msg.spec_seq_num(),
    ensures
        m.step(msg).emitted(dup) == Seq::<T>::empty(),
        m.step(msg).step(dup).released == m.step(msg).released,
{
    let s = msg.spec_seq_num() as int;
    let mid = m.step(msg);
    if s == m.released + 1 {
        lemma_run_len_prefix(m.buffer, m.released + 2);
        assert(s <= mid.released);
    }
    assert(mid.emitted(dup) == Seq::<T>::empty());
}

/// Law (contiguity, one step): what one step emits is exactly the contiguous
/// block of sequence numbers that extends the already released prefix, and
/// the release point advances to the end of that block and never moves
/// backwards. The emitted sequences of successive steps therefore concatenate
/// to one strictly ascending, gap-free sequence - [`lemma_run_emitted_contiguous`]
/// states that for a whole run - and no sequence number is emitted before it
/// is released or more than once.
pub proof fn lemma_emitted_contiguous<T: Arbitratable>(m: ArbiterModel<T>, msg: T)
    requires
        m.wf(),
    ensures
        forall|i: int|
            0 <= i < m.emitted(msg).len() ==> #[trigger] m.emitted(msg)[i].spec_seq_num()
                == m.released + 1 + i,
        m.step(msg).released == m.released + m.emitted(msg).len(),
        forall|i: int|
            0 <= i < m.emitted(msg).len() ==> m.buffer.contains(#[trigger] m.emitted(msg)[i])
                || m.emitted(msg)[i] == msg,
{
    if msg.spec_seq_num() == m.released + 1 {
        lemma_run_len_prefix(m.buffer, m.released + 2);
        let k = run_len(m.buffer, m.released + 2) as int;
        assert forall|i: int|
            0 <= i < m.emitted(msg).len() implies #[trigger] m.emitted(msg)[i].spec_seq_num()
            == m.released + 1 + i && (m.buffer.contains(m.emitted(msg)[i]) || m.emitted(msg)[i]
            == msg) by {
            if i > 0 {
                assert(m.emitted(msg)[i] == m.buffer.take(k)[i - 1]);
                assert(m.buffer.take(k)[i - 1] == m.buffer[i - 1]);
                assert(m.buffer.contains(m.buffer[i - 1]));
            }
        }
    }
}

/// Law (contiguity, whole run): a run of submissions emits, in order, exactly
/// the sequence numbers from the starting release point up to the final one,
/// each carried by a message that was submitted or already buffered.
pub proof fn lemma_run_emitted_contiguous<T: Arbitratable>(m: ArbiterModel<T>, msgs: Seq<T>)
    requires
        m.wf(),
    ensures
        m.run(msgs).wf(),
        m.run(msgs).released == m.released + m.run_emitted(msgs).len(),
        forall|i: int|
            0 <= i < m.run_emitted(msgs).len() ==> #[trigger] m.run_emitted(
                msgs,
            )[i].spec_seq_num() == m.released + 1 + i,
        forall|i: int|
            0 <= i < m.run_emitted(msgs).len() ==> m.buffer.contains(
                #[trigger] m.run_emitted(msgs)[i],
            ) || msgs.contains(m.run_emitted(msgs)[i]),
    decreases msgs.len(),
{
    if msgs.len() > 0 {
        let head = msgs[0];
        let mid = m.step(head);
        let e0 = m.emitted(head);
        let rest = m.run_emitted(msgs).skip(e0.len() as int);
        lemma_emitted_contiguous(m, head);
        lemma_step_wf(m, head);
        lemma_run_emitted_contiguous(mid, msgs.drop_first());
        assert(m.run_emitted(msgs) == e0 + mid.run_emitted(msgs.drop_first()));
        assert forall|i: int|
            0 <= i < m.run_emitted(msgs).len() implies #[trigger] m.run_emitted(
            msgs,
        )[i].spec_seq_num() == m.released + 1 + i by {
            if i < e0.len() {
                assert(m.run_emitted(msgs)[i] == e0[i]);
            } else {
                assert(m.run_emitted(msgs)[i] == mid.run_emitted(msgs.drop_first())[i - e0.len()]);
            }
        }
        assert forall|i: int|
            0 <= i < m.run_emitted(msgs).len() implies m.buffer.contains(
            #[trigger] m.run_emitted(msgs)[i],
        ) || msgs.contains(m.run_emitted(msgs)[i]) by {
            let x = m.run_emitted(msgs)[i];
            if i < e0.len() {
                assert(x == e0[i]);
                if x == head {
                    assert(msgs.contains(x));
                }
            } else {
                assert(x == mid.run_emitted(msgs.drop_first())[i - e0.len()]);
                if mid.buffer.contains(x) {
                    // a message buffered after the step was either buffered
                    // before it or is the step's own message
                    let bi = choose|bi: int| 0 <= bi < mid.buffer.len() && mid.buffer[bi] == x;
                    lemma_step_buffer_elements(m, head, mid.buffer[bi]);
                    if x == head {
                        assert(msgs.contains(x));
                    }
                } else {
                    let mi = choose|mi: int|
                        0 <= mi < msgs.drop_first().len() && msgs.drop_first()[mi] == x;
                    assert(msgs[mi + 1] == x);
                    assert(msgs.contains(x));
                }
            }
        }
    }
}

/// One step keeps the model's invariant.
pub proof fn lemma_step_wf<T: Arbitratable>(m: ArbiterModel<T>, msg: T)
    requires
        m.wf(),
    ensures
        m.step(msg).wf(),
{
    let s = msg.spec_seq_num() as int;
    let post = m.step(msg);
    if s == m.released + 1 {
        lemma_run_len_prefix(m.buffer, m.released + 2);
        let k = run_len(m.buffer, m.released + 2) as int;
        if k < m.buffer.len() {
            if k > 0 {
                assert(m.buffer[k - 1].spec_seq_num() == m.released + 1 + k);
                assert(m.buffer[k - 1].spec_seq_num() < m.buffer[k].spec_seq_num());
            }
            assert(m.buffer[k].spec_seq_num() > m.released + 2 + k);
        }
        assert forall|i: int|
            0 <= i < post.buffer.len() implies #[trigger] post.buffer[i].spec_seq_num()
            > post.released + 1 by {
            assert(post.buffer[i] == m.buffer[k + i]);
            if i > 0 {
                assert(m.buffer[k].spec_seq_num() < m.buffer[k + i].spec_seq_num());
            }
        }
        assert forall|i: int, j: int|
            0 <= i < j < post.buffer.len() implies #[trigger] post.buffer[i].spec_seq_num()
            < #[trigger] post.buffer[j].spec_seq_num() by {
            assert(post.buffer[i] == m.buffer[k + i]);
            assert(post.buffer[j] == m.buffer[k + j]);
        }
    } else if s > m.released + 1 {
        lemma_insert_by_seq_sorted(m.buffer, msg, m.released);
    }
}

/// A message buffered after one step was either buffered before it or is the
/// message the step absorbed.
proof fn lemma_step_buffer_elements<T: Arbitratable>(m: ArbiterModel<T>, msg: T, x: T)
    requires
        m.step(msg).buffer.contains(x),
    ensures
        m.buffer.contains(x) || x == msg,
{
    let s = msg.spec_seq_num() as int;
    let post = m.step(msg);
    let i = choose|i: int| 0 <= i < post.buffer.len() && post.buffer[i] == x;
    if s == m.released + 1 {
        let k = run_len(m.buffer, m.released + 2) as int;
        lemma_run_len_prefix(m.buffer, m.released + 2);
        assert(m.buffer[k + i] == x);
        assert(m.buffer.contains(x));
    } else if s > m.released + 1 {
        lemma_insert_by_seq_elements(m.buffer, msg, x);
    } else {
        assert(m.buffer.contains(x));
    }
}

/// A freshly constructed arbiter's model is consistent with the empty arrival
/// set: nothing has been released and nothing is buffered.
pub proof fn lemma_new_consistent<T: Arbitratable>(m: ArbiterModel<T>)
    requires
        m.released == 0,
        m.buffer.len() == 0,
    ensures
        m.consistent_with(Set::<T>::empty()),
{
    assert(!seq_nums_of::<T>(Set::empty()).contains(1));
}

/// The sequence numbers of a set grown by one message are the set's own and
/// the message's.
proof fn lemma_seq_nums_insert<T: Arbitratable>(arrived: Set<T>, msg: T)
    ensures
        forall|k: int|
            #[trigger] seq_nums_of(arrived.insert(msg)).contains(k) <==> (seq_nums_of(
                arrived,
            ).contains(k) || k == msg.spec_seq_num() as int),
{
    let arrived2 = arrived.insert(msg);
    assert forall|k: int|
        #[trigger] seq_nums_of(arrived2).contains(k) <==> (seq_nums_of(arrived).contains(k) || k
            == msg.spec_seq_num() as int) by {
        if seq_nums_of(arrived2).contains(k) {
            let m = choose|m: T| arrived2.contains(m) && m.spec_seq_num() == k;
            if m != msg {
                assert(arrived.contains(m));
            }
        }
        if seq_nums_of(arrived).contains(k) {
            let m = choose|m: T| arrived.contains(m) && m.spec_seq_num() == k;
            assert(arrived2.contains(m));
        }
        if k == msg.spec_seq_num() as int {
            assert(arrived2.contains(msg));
        }
    }
}

/// Law (order independence, one step): absorbing a message whose sequence
/// number no earlier arrival carries takes a state consistent with the
/// arrival set `arrived` to a state consistent with `arrived` plus the
/// message.
pub proof fn lemma_step_preserves_consistency<T: Arbitratable>(
    m: ArbiterModel<T>,
    msg: T,
    arrived: Set<T>,
)
    requires
        m.consistent_with(arrived),
        !seq_nums_of(arrived).contains(msg.spec_seq_num() as int),
    ensures
        m.step(msg).consistent_with(arrived.insert(msg)),
{
    let s = msg.spec_seq_num() as int;
    let rel = m.released;
    let post = m.step(msg);
    let arrived2 = arrived.insert(msg);
    lemma_seq_nums_insert(arrived, msg);
    lemma_step_wf(m, msg);
    if s == rel + 1 {
        lemma_run_len_prefix(m.buffer, rel + 2);
        let k = run_len(m.buffer, rel + 2) as int;
        assert(post.released == rel + 1 + k);
        assert(post.buffer == m.buffer.skip(k));
        assert forall|kk: int|
            1 <= kk <= post.released implies #[trigger] seq_nums_of(arrived2).contains(kk) by {
            if kk <= rel {
                assert(seq_nums_of(arrived).contains(kk));
            } else if kk == rel + 1 {
                assert(arrived2.contains(msg));
            } else {
                let i = kk - rel - 2;
                assert(m.buffer[i].spec_seq_num() == rel + 2 + i);
                assert(arrived.contains(m.buffer[i]));
            }
        }
        if k < m.buffer.len() {
            assert(m.buffer[k].spec_seq_num() != rel + 2 + k);
            if k > 0 {
                assert(m.buffer[k - 1].spec_seq_num() == rel + 1 + k);
                assert(m.buffer[k - 1].spec_seq_num() < m.buffer[k].spec_seq_num());
            }
            assert(m.buffer[k].spec_seq_num() > rel + 2 + k);
        }
        assert(!seq_nums_of(arrived2).contains(post.released + 1)) by {
            let g = rel + 2 + k;
            if seq_nums_of(arrived2).contains(g) {
                let mm = choose|mm: T| arrived2.contains(mm) && mm.spec_seq_num() == g;
                assert(mm != msg);
                assert(arrived.contains(mm));
                assert(m.buffer.contains(mm));
                let idx = choose|i: int| 0 <= i < m.buffer.len() && m.buffer[i] == mm;
                if idx < k {
                    assert(m.buffer[idx].spec_seq_num() == rel + 2 + idx);
                } else if idx > k {
                    assert(m.buffer[k].spec_seq_num() < m.buffer[idx].spec_seq_num());
                }
                assert(false);
            }
        }
        assert forall|i: int| 0 <= i < post.buffer.len() implies arrived2.contains(
            #[trigger] post.buffer[i],
        ) by {
            assert(post.buffer[i] == m.buffer[k + i]);
            assert(arrived.contains(m.buffer[k + i]));
        }
        assert forall|mm: T|
            #[trigger] arrived2.contains(mm) && mm.spec_seq_num() > post.released + 1 implies
            post.buffer.contains(mm) by {
            assert(mm != msg);
            assert(arrived.contains(mm));
            assert(m.buffer.contains(mm));
            let idx = choose|i: int| 0 <= i < m.buffer.len() && m.buffer[i] == mm;
            if idx < k {
                assert(m.buffer[idx].spec_seq_num() == rel + 2 + idx);
            }
            assert(post.buffer[idx - k] == mm);
        }
    } else if s > rel + 1 {
        assert(post.released == rel);
        assert(post.buffer == insert_by_seq(m.buffer, msg));
        assert forall|i: int|
            0 <= i < m.buffer.len() implies #[trigger] m.buffer[i].spec_seq_num()
            != msg.spec_seq_num() by {
            assert(arrived.contains(m.buffer[i]));
            if m.buffer[i].spec_seq_num() == msg.spec_seq_num() {
                assert(seq_nums_of(arrived).contains(s));
            }
        }
        lemma_insert_by_seq_contains(m.buffer, msg);
        assert forall|i: int| 0 <= i < post.buffer.len() implies arrived2.contains(
            #[trigger] post.buffer[i],
        ) by {
            assert(post.buffer.contains(post.buffer[i]));
            if post.buffer[i] != msg {
                assert(m.buffer.contains(post.buffer[i]));
                let idx = choose|ii: int|
                    0 <= ii < m.buffer.len() && m.buffer[ii] == post.buffer[i];
                assert(arrived.contains(m.buffer[idx]));
            }
        }
        assert forall|mm: T|
            #[trigger] arrived2.contains(mm) && mm.spec_seq_num() > rel + 1 implies
            post.buffer.contains(mm) by {
            if mm != msg {
                assert(arrived.contains(mm));
                assert(m.buffer.contains(mm));
            }
        }
    } else {
        assert(post == m);
        if 1 <= s {
            assert(seq_nums_of(arrived).contains(s));
            assert(false);
        }
        assert forall|i: int| 0 <= i < post.buffer.len() implies arrived2.contains(
            #[trigger] post.buffer[i],
        ) by {
            assert(arrived.contains(m.buffer[i]));
        }
    }
}

/// Running a sequence of messages whose sequence numbers are pairwise distinct
/// and all new to `arrived` keeps the model consistent with the growing set of
/// arrivals.
pub proof fn lemma_run_consistent<T: Arbitratable>(
    m: ArbiterModel<T>,
    msgs: Seq<T>,
    arrived: Set<T>,
)
    requires
        m.consistent_with(arrived),
        forall|i: int, j: int|
            0 <= i < j < msgs.len() ==> #[trigger] msgs[i].spec_seq_num()
                != #[trigger] msgs[j].spec_seq_num(),
        forall|i: int|
            0 <= i < msgs.len() ==> !seq_nums_of(arrived).contains(
                #[trigger] msgs[i].spec_seq_num() as int,
            ),
    ensures
        m.run(msgs).consistent_with(arrived.union(msgs.to_set())),
    decreases msgs.len(),
{
    if msgs.len() == 0 {
        assert(arrived.union(msgs.to_set()) =~= arrived);
    } else {
        let head = msgs[0];
        let tail = msgs.drop_first();
        lemma_step_preserves_consistency(m, head, arrived);
        lemma_seq_nums_insert(arrived, head);
        assert(forall|k: int| 0 <= k < tail.len() ==> tail[k] == msgs[k + 1]);
        lemma_run_consistent(m.step(head), tail, arrived.insert(head));
        assert(arrived.insert(head).union(tail.to_set()) =~= arrived.union(msgs.to_set())) by {
            assert forall|x: T| #[trigger] msgs.to_set().contains(x) implies x == head
                || tail.to_set().contains(x) by {
                let i = choose|i: int| 0 <= i < msgs.len() && msgs[i] == x;
                if i > 0 {
                    assert(tail[i - 1] == x);
                    assert(tail.contains(x));
                }
            }
            assert forall|x: T| #[trigger] tail.to_set().contains(x) implies
                msgs.to_set().contains(x) by {
                let i = choose|i: int| 0 <= i < tail.len() && tail[i] == x;
                assert(msgs[i + 1] == x);
                assert(msgs.contains(x));
            }
            assert(msgs.to_set().contains(head)) by {
                assert(msgs.contains(head));
            }
        }
    }
}

/// Law (order independence, end state): two models that have each absorbed
/// exactly the messages of the same arrival set - each in its own order -
/// agree on the release point and on the whole pending buffer.
pub proof fn lemma_same_arrivals_same_state<T: Arbitratable>(
    a: ArbiterModel<T>,
    b: ArbiterModel<T>,
    arrived: Set<T>,
)
    requires
        a.consistent_with(arrived),
        b.consistent_with(arrived),
    ensures
        a.released == b.released,
        a.buffer == b.buffer,
{
    if a.released < b.released {
        assert(seq_nums_of(arrived).contains(a.released + 1));
        assert(false);
    }
    if b.released < a.released {
        assert(seq_nums_of(arrived).contains(b.released + 1));
        assert(false);
    }
    assert forall|x: T| #[trigger] a.buffer.contains(x) == b.buffer.contains(x) by {
        if a.buffer.contains(x) {
            let i = choose|i: int| 0 <= i < a.buffer.len() && a.buffer[i] == x;
            assert(arrived.contains(a.buffer[i]));
            assert(x.spec_seq_num() > b.released + 1);
            assert(b.buffer.contains(x));
        }
        if b.buffer.contains(x) {
            let i = choose|i: int| 0 <= i < b.buffer.len() && b.buffer[i] == x;
            assert(arrived.contains(b.buffer[i]));
            assert(x.spec_seq_num() > a.released + 1);
            assert(a.buffer.contains(x));
        }
    }
    lemma_sorted_same_elements_equal(a.buffer, b.buffer);
}

/// Law (order independence, whole runs): delivering the same duplicate-free
/// messages to a fresh arbiter in two different orders ends with the same
/// release point and the same pending buffer, and emits the same total
/// sequence.
pub proof fn lemma_order_independent<T: Arbitratable>(
    m0: ArbiterModel<T>,
    msgs1: Seq<T>,
    msgs2: Seq<T>,
)
    requires
        m0.released == 0,
        m0.buffer.len() == 0,
        msgs1.to_set() == msgs2.to_set(),
        forall|i: int, j: int|
            0 <= i < j < msgs1.len() ==> #[trigger] msgs1[i].spec_seq_num()
                != #[trigger] msgs1[j].spec_seq_num(),
        forall|i: int, j: int|
            0 <= i < j < msgs2.len() ==> #[trigger] msgs2[i].spec_seq_num()
                != #[trigger] msgs2[j].spec_seq_num(),
    ensures
        m0.run(msgs1).released == m0.run(msgs2).released,
        m0.run(msgs1).buffer == m0.run(msgs2).buffer,
        m0.run_emitted(msgs1) == m0.run_emitted(msgs2),
{
    lemma_new_consistent::<T>(m0);
    assert forall|i: int|
        0 <= i < msgs1.len() implies !seq_nums_of(Set::<T>::empty()).contains(
        #[trigger] msgs1[i].spec_seq_num() as int,
    ) by {
        if seq_nums_of(Set::<T>::empty()).contains(msgs1[i].spec_seq_num() as int) {
            let mm = choose|mm: T|
                Set::<T>::empty().contains(mm) && mm.spec_seq_num() == msgs1[i].spec_seq_num()
                    as int;
            assert(false);
        }
    }
    assert forall|i: int|
        0 <= i < msgs2.len() implies !seq_nums_of(Set::<T>::empty()).contains(
        #[trigger] msgs2[i].spec_seq_num() as int,
    ) by {
        if seq_nums_of(Set::<T>::empty()).contains(msgs2[i].spec_seq_num() as int) {
            let mm = choose|mm: T|
                Set::<T>::empty().contains(mm) && mm.spec_seq_num() == msgs2[i].spec_seq_num()
                    as int;
            assert(false);
        }
    }
    lemma_run_consistent(m0, msgs1, Set::<T>::empty());
    lemma_run_consistent(m0, msgs2, Set::<T>::empty());
    let arrived = msgs1.to_set();
    assert(Set::<T>::empty().union(msgs1.to_set()) =~= arrived);
    assert(Set::<T>::empty().union(msgs2.to_set()) =~= arrived);
    lemma_same_arrivals_same_state(m0.run(msgs1), m0.run(msgs2), arrived);
    lemma_run_emitted_contiguous(m0, msgs1);
    lemma_run_emitted_contiguous(m0, msgs2);
    let e1 = m0.run_emitted(msgs1);
    let e2 = m0.run_emitted(msgs2);
    assert(e1.len() == e2.len());
    assert forall|i: int| 0 <= i < e1.len() implies e1[i] == e2[i] by {
        assert(e1[i].spec_seq_num() == i + 1);
        assert(e2[i].spec_seq_num() == i + 1);
        assert(msgs1.contains(e1[i]));
        assert(msgs2.contains(e2[i]));
        assert(msgs1.to_set().contains(e1[i]));
        assert(msgs2.to_set().contains(e2[i]));
        let i1 = choose|k: int| 0 <= k < msgs1.len() && msgs1[k] == e1[i];
        let i2 = choose|k: int| 0 <= k < msgs1.len() && msgs1[k] == e2[i];
        if i1 != i2 {
            assert(msgs1[i1].spec_seq_num() != msgs1[i2].spec_seq_num());
        }
    }
    assert(e1 =~= e2);
}

/// The messages that an insertion leaves in the buffer were in the buffer
/// before, or are the inserted one.
proof fn lemma_insert_by_seq_elements<T: Arbitratable>(buf: Seq<T>, m: T, x: T)
    requires
        insert_by_seq(buf, m).contains(x),
    ensures
        buf.contains(x) || x == m,
    decreases buf.len(),
{
    broadcast use vstd::seq_lib::lemma_seq_concat_contains_all_elements;

    let r = insert_by_seq(buf, m);
    let i = choose|i: int| 0 <= i < r.len() && r[i] == x;
    if buf.len() == 0 {
        assert(x == m);
    } else if m.spec_seq_num() < buf[0].spec_seq_num() {
        if seq![m].contains(x) {
            let k = choose|k: int| 0 <= k < seq![m].len() && seq![m][k] == x;
            assert(x == m);
        }
    } else if m.spec_seq_num() == buf[0].spec_seq_num() {
        if seq![m].contains(x) {
            let k = choose|k: int| 0 <= k < seq![m].len() && seq![m][k] == x;
            assert(x == m);
        } else {
            let k = choose|k: int|
                0 <= k < buf.drop_first().len() && buf.drop_first()[k] == x;
            assert(buf[k + 1] == x);
            assert(buf.contains(x));
        }
    } else {
        if seq![buf[0]].contains(x) {
            let k = choose|k: int| 0 <= k < seq![buf[0]].len() && seq![buf[0]][k] == x;
            assert(x == buf[0]);
            assert(buf.contains(x));
        } else {
            lemma_insert_by_seq_elements(buf.drop_first(), m, x);
            if buf.drop_first().contains(x) {
                let k = choose|k: int|
                    0 <= k < buf.drop_first().len() && buf.drop_first()[k] == x;
                assert(buf[k + 1] == x);
                assert(buf.contains(x));
            }
        }
    }
}


/// Inserting a message whose sequence number is not yet in the buffer makes
/// the buffer hold exactly the old messages and the new one.
proof fn lemma_insert_by_seq_contains<T: Arbitratable>(buf: Seq<T>, m: T)
    requires
        forall|i: int| 0 <= i < buf.len() ==> #[trigger] buf[i].spec_seq_num() != m.spec_seq_num(),
    ensures
        forall|x: T| (#[trigger] insert_by_seq(buf, m).contains(x) <==> buf.contains(x) || x == m),
    decreases buf.len(),
{
    broadcast use vstd::seq_lib::lemma_seq_concat_contains_all_elements;

    let r = insert_by_seq(buf, m);
    if buf.len() == 0 {
        assert forall|x: T| #[trigger] r.contains(x) <==> buf.contains(x) || x == m by {
            assert(r[0] == m);
            if r.contains(x) {
                let i = choose|i: int| 0 <= i < r.len() && r[i] == x;
                assert(i == 0);
            }
        }
    } else if m.spec_seq_num() < buf[0].spec_seq_num() {
        assert forall|x: T| #[trigger] r.contains(x) <==> buf.contains(x) || x == m by {
            assert(seq![m][0] == m);
            assert(seq![m].contains(m));
            if seq![m].contains(x) {
                let i = choose|i: int| 0 <= i < seq![m].len() && seq![m][i] == x;
                assert(i == 0);
            }
        }
    } else {
        assert(m.spec_seq_num() > buf[0].spec_seq_num());
        assert(forall|k: int| 0 <= k < buf.len() - 1 ==> buf.drop_first()[k] == buf[k + 1]);
        lemma_insert_by_seq_contains(buf.drop_first(), m);
        let rr = insert_by_seq(buf.drop_first(), m);
        assert(r == seq![buf[0]] + rr);
        assert forall|x: T| #[trigger] r.contains(x) <==> buf.contains(x) || x == m by {
            assert(seq![buf[0]][0] == buf[0]);
            assert(seq![buf[0]].contains(buf[0]));
            if seq![buf[0]].contains(x) {
                let i = choose|i: int| 0 <= i < seq![buf[0]].len() && seq![buf[0]][i] == x;
                assert(i == 0);
            }
            if buf.contains(x) {
                let i = choose|i: int| 0 <= i < buf.len() && buf[i] == x;
                if i > 0 {
                    assert(buf.drop_first()[i - 1] == x);
                    assert(buf.drop_first().contains(x));
                }
            }
            if buf.drop_first().contains(x) {
                let i = choose|i: int| 0 <= i < buf.drop_first().len() && buf.drop_first()[i] == x;
                assert(buf[i + 1] == x);
                assert(buf.contains(x));
            }
        }
    }
}

/// Two sequences that are strictly sorted by sequence number and hold the
/// same members are equal.
proof fn lemma_sorted_same_elements_equal<T: Arbitratable>(
    s1: Seq<T>,
    s2: Seq<T>,
)
    requires
        forall|i: int, j: int|
            0 <= i < j < s1.len() ==> #[trigger] s1[i].spec_seq_num()
                < #[trigger] s1[j].spec_seq_num(),
        forall|i: int, j: int|
            0 <= i < j < s2.len() ==> #[trigger] s2[i].spec_seq_num()
                < #[trigger] s2[j].spec_seq_num(),
        forall|x: T| #[trigger] s1.contains(x) == s2.contains(x),
    ensures
        s1 == s2,
    decreases s1.len(),
{
    if s1.len() == 0 {
        if s2.len() > 0 {
            assert(s2.contains(s2[0]));
            assert(s1.contains(s2[0]));
            let i = choose|i: int| 0 <= i < s1.len() && s1[i] == s2[0];
            assert(false);
        }
        assert(s1 =~= s2);
    } else {
        assert(s1.contains(s1[0]));
        assert(s2.contains(s1[0]));
        let j = choose|j: int| 0 <= j < s2.len() && s2[j] == s1[0];
        assert(s2.contains(s2[0]));
        assert(s1.contains(s2[0]));
        let i = choose|i: int| 0 <= i < s1.len() && s1[i] == s2[0];
        if i > 0 {
            assert(s1[0].spec_seq_num() < s1[i].spec_seq_num());
        }
        if j > 0 {
            assert(s2[0].spec_seq_num() < s2[j].spec_seq_num());
        }
        assert(s1[0] == s2[0]);
        let t1 = s1.drop_first();
        let t2 = s2.drop_first();
        assert(forall|k: int| 0 <= k < t1.len() ==> t1[k] == s1[k + 1]);
        assert(forall|k: int| 0 <= k < t2.len() ==> t2[k] == s2[k + 1]);
        assert forall|x: T| #[trigger] t1.contains(x) <==> #[trigger] t2.contains(x) by {
            if t1.contains(x) {
                let ii = choose|ii: int| 0 <= ii < t1.len() && t1[ii] == x;
                assert(s1[ii + 1] == x);
                assert(s1.contains(x));
                assert(s2.contains(x));
                let jj = choose|jj: int| 0 <= jj < s2.len() && s2[jj] == x;
                assert(x.spec_seq_num() > s1[0].spec_seq_num());
                if jj == 0 {
                    assert(false);
                }
                assert(t2[jj - 1] == x);
                assert(t2.contains(x));
            }
            if t2.contains(x) {
                let jj = choose|jj: int| 0 <= jj < t2.len() && t2[jj] == x;
                assert(s2[jj + 1] == x);
                assert(s2.contains(x));
                assert(s1.contains(x));
                let ii = choose|ii: int| 0 <= ii < s1.len() && s1[ii] == x;
                assert(x.spec_seq_num() > s2[0].spec_seq_num());
                if ii == 0 {
                    assert(false);
                }
                assert(t1[ii - 1] == x);
                assert(t1.contains(x));
            }
        }
        lemma_sorted_same_elements_equal(t1, t2);
        assert(s1.len() == s2.len());
        assert forall|idx: int| 0 <= idx < s1.len() implies s1[idx] == s2[idx] by {
            if idx > 0 {
                assert(t1[idx - 1] == s1[idx]);
                assert(t2[idx - 1] == s2[idx]);
            }
        }
        assert(s1 =~= s2);
    }
}

} // verus!
