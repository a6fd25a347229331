//! The windowed-with-retransmission transfer state: cumulative
//! acknowledgment, out-of-order chunk reassembly, send-window flow control,
//! and end-of-stream latching.

use vstd::prelude::*;

verus! {

/// A sequenced slice of the byte stream. A chunk with empty data is the
/// end-of-stream sentinel for its direction.
pub struct Chunk {
    pub seq: u32,
    pub data: Vec<u8>,
}

/// The unit exchanged per DNS query/response pair: one cumulative
/// acknowledgment for the opposite direction and at most one data chunk.
pub struct Packet {
    pub ack: u32,
    pub chunk: Option<Chunk>,
}

/// The contents of a sparse chunk buffer, keyed by sequence number. A later
/// entry with the same sequence number supersedes an earlier one.
pub open spec fn chunks_map(s: Seq<Chunk>) -> Map<u32, Seq<u8>>
    decreases s.len(),
{
    if s.len() == 0 {
        Map::empty()
    } else {
        chunks_map(s.drop_last()).insert(s.last().seq, s.last().data@)
    }
}

pub open spec fn distinct_seqs(s: Seq<Chunk>) -> bool {
    forall|i: int, j: int| 0 <= i < j < s.len() ==> s[i].seq != s[j].seq
}

pub open spec fn has_seq(s: Seq<Chunk>, k: u32) -> bool {
    exists|i: int| 0 <= i < s.len() && s[i].seq == k
}

/// The deliverable run starting at `from`: data at consecutive keys, stopping
/// at a missing key or just after the first empty (end-of-stream) entry.
pub open spec fn drain_run(m: Map<u32, Seq<u8>>, from: u32) -> Seq<Seq<u8>>
    decreases m.dom().len(),
    when m.dom().finite()
{
    if m.contains_key(from) {
        if m[from].len() == 0 {
            seq![m[from]]
        } else {
            seq![m[from]] + drain_run(m.remove(from), ((from as int + 1) as u32))
        }
    } else {
        Seq::empty()
    }
}

/// The map left after removing `n` consecutive keys starting at `from`.
pub open spec fn drop_run(m: Map<u32, Seq<u8>>, from: u32, n: nat) -> Map<u32, Seq<u8>>
    decreases n,
{
    if n == 0 {
        m
    } else {
        drop_run(m.remove(from), ((from as int + 1) as u32), (n - 1) as nat)
    }
}

/// The concatenation of a sequence of byte runs.
pub open spec fn concat_all(rs: Seq<Seq<u8>>) -> Seq<u8>
    decreases rs.len(),
{
    if rs.len() == 0 {
        Seq::empty()
    } else {
        concat_all(rs.drop_last()) + rs.last()
    }
}

pub proof fn lemma_chunks_map(s: Seq<Chunk>)
    ensures
        chunks_map(s).dom().finite(),
        forall|k: u32| chunks_map(s).contains_key(k) <==> has_seq(s, k),
    decreases s.len(),
{
    if s.len() == 0 {
        assert(forall|k: u32| !has_seq(s, k));
    } else {
        lemma_chunks_map(s.drop_last());
        assert forall|k: u32| chunks_map(s).contains_key(k) implies has_seq(s, k) by {
            if k == s.last().seq {
                assert(s[s.len() - 1].seq == k);
            } else {
                assert(chunks_map(s.drop_last()).contains_key(k));
                assert(has_seq(s.drop_last(), k));
                let i = choose|i: int| 0 <= i < s.drop_last().len() && s.drop_last()[i].seq == k;
                assert(s.drop_last()[i] == s[i]);
                assert(s[i].seq == k);
            }
        }
        assert forall|k: u32| has_seq(s, k) implies chunks_map(s).contains_key(k) by {
            let i = choose|i: int| 0 <= i < s.len() && s[i].seq == k;
            if i < s.len() - 1 {
                assert(s.drop_last()[i].seq == k);
                assert(has_seq(s.drop_last(), k));
                assert(chunks_map(s.drop_last()).contains_key(k));
            } else {
                assert(k == s.last().seq);
            }
        }
    }
}

/// With distinct sequence numbers, each entry's data is the buffered value.
pub proof fn lemma_chunks_map_at(s: Seq<Chunk>, i: int)
    requires
        distinct_seqs(s),
        0 <= i < s.len(),
    ensures
        chunks_map(s).contains_key(s[i].seq),
        chunks_map(s)[s[i].seq] == s[i].data@,
    decreases s.len(),
{
    lemma_chunks_map(s);
    if i < s.len() - 1 {
        assert(distinct_seqs(s.drop_last()));
        assert(s.drop_last()[i] == s[i]);
        lemma_chunks_map_at(s.drop_last(), i);
        assert(s[i].seq != s.last().seq);
    }
}

/// Removing the entry at one index removes exactly its key from the map.
pub proof fn lemma_chunks_map_remove(s: Seq<Chunk>, i: int)
    requires
        distinct_seqs(s),
        0 <= i < s.len(),
    ensures
        chunks_map(s.remove(i)) == chunks_map(s).remove(s[i].seq),
    decreases s.len(),
{
    if i == s.len() - 1 {
        assert(s.remove(i) =~= s.drop_last());
        lemma_chunks_map(s.drop_last());
        assert(!has_seq(s.drop_last(), s[i].seq));
        assert(chunks_map(s.drop_last()) == chunks_map(s.drop_last()).remove(s[i].seq)) by {
            assert(chunks_map(s.drop_last()) =~= chunks_map(s.drop_last()).remove(s[i].seq));
        }
        assert(chunks_map(s).remove(s.last().seq) =~= chunks_map(s.drop_last()).remove(
            s.last().seq,
        ));
    } else {
        let k = s[i].seq;
        assert(distinct_seqs(s.drop_last()));
        lemma_chunks_map_remove(s.drop_last(), i);
        assert(s.remove(i).drop_last() =~= s.drop_last().remove(i));
        assert(s.remove(i).last() == s.last());
        assert(k != s.last().seq);
        assert(chunks_map(s.remove(i)) == chunks_map(s.drop_last().remove(i)).insert(
            s.last().seq,
            s.last().data@,
        ));
        assert(chunks_map(s.drop_last()).remove(k).insert(s.last().seq, s.last().data@)
            =~= chunks_map(s.drop_last()).insert(s.last().seq, s.last().data@).remove(k));
    }
}

/// In a deliverable run, only the final entry can be empty.
pub proof fn lemma_drain_run_shape(m: Map<u32, Seq<u8>>, from: u32)
    requires
        m.dom().finite(),
    ensures
        forall|i: int| 0 <= i < drain_run(m, from).len() - 1 ==> drain_run(m, from)[i].len() > 0,
    decreases m.dom().len(),
{
    if m.contains_key(from) && m[from].len() > 0 {
        let rest = drain_run(m.remove(from), ((from as int + 1) as u32));
        lemma_drain_run_shape(m.remove(from), ((from as int + 1) as u32));
        assert forall|i: int|
            0 <= i < drain_run(m, from).len() - 1 implies drain_run(m, from)[i].len() > 0 by {
            if i > 0 {
                assert(drain_run(m, from)[i] == rest[i - 1]);
            }
        }
    }
}

/// Once every key in a map is a consecutive, non-empty entry, the deliverable
/// run is the whole contents in sequence order.
pub proof fn lemma_drain_run_complete(m: Map<u32, Seq<u8>>, from: u32, n: nat)
    requires
        m.dom().finite(),
        from + n <= u32::MAX,
        forall|i: int|
            0 <= i < n ==> #[trigger] m.contains_key(((from + i) as u32)) && m[((from + i)
                as u32)].len() > 0,
        forall|k: u32| m.contains_key(k) ==> from <= k < from + n,
    ensures
        drain_run(m, from).len() == n,
        forall|i: int| 0 <= i < n ==> #[trigger] drain_run(m, from)[i] == m[((from + i) as u32)],
    decreases n,
{
    if n == 0 {
        assert(!m.contains_key(from));
    } else {
        assert(m.contains_key(((from + 0) as u32)));
        assert(m[from].len() > 0);
        let m2 = m.remove(from);
        assert(m2.dom() =~= m.dom().remove(from));
        assert(m2.dom().finite());
        assert forall|k: u32| m2.contains_key(k) implies from + 1 <= k < from + 1 + (n - 1) by {
            assert(m.contains_key(k));
        }
        assert forall|i: int| 0 <= i < n - 1 implies #[trigger] m2.contains_key(
            ((from + 1 + i) as u32),
        ) && m2[((from + 1 + i) as u32)].len() > 0 by {
            assert(m.contains_key(((from + (i + 1)) as u32)));
        }
        lemma_drain_run_complete(m2, ((from as int + 1) as u32), (n - 1) as nat);
        assert forall|i: int| 0 <= i < n implies #[trigger] drain_run(m, from)[i] == m[((from + i)
            as u32)] by {
            if i > 0 {
                assert(drain_run(m2, ((from + 1) as u32))[i - 1] == m2[((from + 1 + (i - 1)) as u32)]);
            }
        }
    }
}

/// Sliding-window liveness: when every chunk of a transfer has arrived —
/// in any order, duplicates collapsing onto the same buffer entries — so
/// that the buffer holds exactly the consecutive segments of the stream,
/// draining reassembles the original bytes in their original order.
pub proof fn lemma_sliding_window_liveness(
    m: Map<u32, Seq<u8>>,
    from: u32,
    n: nat,
    data: Seq<Seq<u8>>,
)
    requires
        m.dom().finite(),
        from + n <= u32::MAX,
        n == data.len(),
        forall|i: int|
            0 <= i < n ==> #[trigger] m.contains_key(((from + i) as u32)) && m[((from + i) as u32)]
                == data[i] && data[i].len() > 0,
        forall|k: u32| m.contains_key(k) ==> from <= k < from + n,
    ensures
        concat_all(drain_run(m, from)) == concat_all(data),
{
    lemma_drain_run_complete(m, from, n);
    assert forall|i: int| 0 <= i < n implies drain_run(m, from)[i] == data[i] by {
        assert(m.contains_key(((from + i) as u32)));
    }
    assert(drain_run(m, from) =~~= data);
}

/// Removing one more consecutive key removes it from the already-reduced map.
pub proof fn lemma_drop_run_snoc(m: Map<u32, Seq<u8>>, from: u32, n: nat)
    requires
        from + n < u32::MAX,
    ensures
        drop_run(m, from, n + 1) == drop_run(m, from, n).remove(((from + n) as u32)),
    decreases n,
{
    let f1 = ((from as int + 1) as u32);
    if n == 0 {
        assert(drop_run(m, from, 1) == drop_run(m.remove(from), f1, 0));
        assert(((from + 0) as u32) == from);
    } else {
        lemma_drop_run_snoc(m.remove(from), f1, (n - 1) as nat);
        assert(drop_run(m, from, n + 1) == drop_run(m.remove(from), f1, n));
        assert(drop_run(m, from, n) == drop_run(m.remove(from), f1, (n - 1) as nat));
        assert(((f1 + (n - 1)) as u32) == ((from + n) as u32));
    }
}

/// The index of the buffered chunk with sequence number `k`, if any.
fn find_seq_index(buf: &Vec<Chunk>, k: u32) -> (r: Option<usize>)
    ensures
        r matches Some(i) ==> i < buf@.len() && buf@[i as int].seq == k,
        r is None ==> !has_seq(buf@, k),
{
    let n = buf.len();
    let mut j: usize = 0;
    while j < n
        invariant
            0 <= j <= n == buf@.len(),
            forall|i: int| 0 <= i < j ==> buf@[i].seq != k,
        decreases n - j,
    {
        if buf[j].seq == k {
            return Some(j);
        }
        j += 1;
    }
    None
}

/// The reliable-transfer state for one direction pair of a session.
pub struct WwrState {
    /// Negotiated window: the bound on outstanding unacknowledged chunks.
    pub window_size: u16,
    /// Negotiated bound on the data bytes of one chunk; at least one, or an
    /// exhausted send buffer could emit a spurious end-of-stream chunk.
    pub mtu: u16,
    /// The lowest unacknowledged outbound sequence number.
    pub send_base: u32,
    /// The next outbound sequence number to assign.
    pub send_next: u32,
    /// Bytes queued but not yet packaged into a chunk.
    pub send_buffer: Vec<u8>,
    /// The sequence number expected next for in-order delivery.
    pub recv_next: u32,
    /// Out-of-order arrivals with sequence numbers at or past `recv_next`.
    pub recv_buffer: Vec<Chunk>,
    /// Latched once a zero-length chunk has been delivered in order.
    pub finished: bool,
}

impl WwrState {
    /// The window invariant: outstanding data is bounded by the negotiated
    /// window, and the receive buffer holds distinct, still-awaited
    /// sequence numbers.
    pub open spec fn wf(&self) -> bool {
        &&& self.send_base <= self.send_next
        &&& self.send_next - self.send_base <= self.window_size
        &&& self.mtu >= 1
        &&& distinct_seqs(self.recv_buffer@)
        &&& (forall|i: int|
            0 <= i < self.recv_buffer@.len() ==> self.recv_next <= #[trigger] self.recv_buffer@[i].seq
                < u32::MAX)
        &&& (self.finished ==> self.recv_buffer@.len() == 0)
    }

    /// The receive buffer as a map from sequence number to data.
    pub open spec fn recv_map(&self) -> Map<u32, Seq<u8>> {
        chunks_map(self.recv_buffer@)
    }

    pub fn new(window_size: u16, mtu: u16, start_seq: u32) -> (r: WwrState)
        requires
            mtu >= 1,
        ensures
            r.wf(),
            r == (WwrState {
                window_size,
                mtu,
                send_base: start_seq,
                send_next: start_seq,
                send_buffer: r.send_buffer,
                recv_next: start_seq,
                recv_buffer: r.recv_buffer,
                finished: false,
            }),
            r.send_buffer@ == Seq::<u8>::empty(),
            r.recv_buffer@ == Seq::<Chunk>::empty(),
    {
        WwrState {
            window_size,
            mtu,
            send_base: start_seq,
            send_next: start_seq,
            send_buffer: Vec::new(),
            recv_next: start_seq,
            recv_buffer: Vec::new(),
            finished: false,
        }
    }

    /// Advance the send window base to a cumulative acknowledgment. The base
    /// never regresses and never passes the next unassigned sequence number.
    pub fn handle_ack(&mut self, ack: u32)
        requires
            old(self).wf(),
        ensures
            final(self).wf(),
            *final(self) == (WwrState {
                send_base: if ack <= old(self).send_base {
                    old(self).send_base
                } else if ack <= old(self).send_next {
                    ack
                } else {
                    old(self).send_next
                },
                ..*old(self)
            }),
    {
        if ack > self.send_base {
            if ack <= self.send_next {
                self.send_base = ack;
            } else {
                self.send_base = self.send_next;
            }
        }
    }

    /// How many more chunks may be queued without violating the window bound;
    /// never negative.
    pub fn send_buffer_space(&self) -> (r: usize)
        requires
            self.wf(),
        ensures
            r == self.window_size - (self.send_next - self.send_base),
    {
        (self.window_size - ((self.send_next - self.send_base) as u16)) as usize
    }

    /// Queue bytes to be packaged into chunks. The caller must first check
    /// that `send_buffer_space` is positive.
    pub fn push_send_buffer(&mut self, data: Vec<u8>)
        requires
            old(self).wf(),
            old(self).send_next - old(self).send_base < old(self).window_size,
        ensures
            final(self).wf(),
            final(self).send_buffer@ == old(self).send_buffer@ + data@,
            *final(self) == (WwrState { send_buffer: final(self).send_buffer, ..*old(self) }),
    {
        let mut d = data;
        self.send_buffer.append(&mut d);
    }

    /// The cumulative acknowledgment to put in the next outbound packet.
    pub fn next_send_ack(&self) -> (r: u32)
        ensures
            r == self.recv_next,
    {
        self.recv_next
    }

    /// Pop at most one MTU-bounded chunk from the send buffer, if queued data
    /// and window space remain.
    pub fn next_send_chunk(&mut self) -> (r: Option<Chunk>)
        requires
            old(self).wf(),
            old(self).send_next < u32::MAX,
        ensures
            final(self).wf(),
            (old(self).send_buffer@.len() == 0 || old(self).send_next - old(self).send_base
                >= old(self).window_size) ==> r is None && *final(self) == *old(self),
            (old(self).send_buffer@.len() > 0 && old(self).send_next - old(self).send_base
                < old(self).window_size) ==> {
                let take = if old(self).send_buffer@.len() <= old(self).mtu {
                    old(self).send_buffer@.len() as int
                } else {
                    old(self).mtu as int
                };
                &&& r matches Some(c) && c.seq == old(self).send_next && c.data@ == old(
                    self,
                ).send_buffer@.take(take)
                &&& final(self).send_buffer@ == old(self).send_buffer@.skip(take)
                &&& *final(self) == (WwrState {
                    send_next: (old(self).send_next + 1) as u32,
                    send_buffer: final(self).send_buffer,
                    ..*old(self)
                })
            },
    {
        if self.send_buffer.len() == 0 {
            return None;
        }
        let outstanding = (self.send_next - self.send_base) as u16;
        if outstanding >= self.window_size {
            return None;
        }
        let take: usize = if self.send_buffer.len() <= self.mtu as usize {
            self.send_buffer.len()
        } else {
            self.mtu as usize
        };
        let mut rest = self.send_buffer.split_off(take);
        core::mem::swap(&mut self.send_buffer, &mut rest);
        let seq = self.send_next;
        self.send_next = self.send_next + 1;
        Some(Chunk { seq, data: rest })
    }

    /// Accept one chunk from the peer and return, in increasing order, every
    /// chunk now deliverable: the maximal gap-free run starting at
    /// `recv_next`, stopping just after a zero-length end-of-stream chunk.
    /// A chunk below `recv_next` is a duplicate and is discarded, and
    /// nothing is accepted once the stream has finished.
    #[verifier::rlimit(80)]
    pub fn handle_chunk(&mut self, chunk: Chunk) -> (r: Vec<Chunk>)
        requires
            old(self).wf(),
            chunk.seq < u32::MAX,
        ensures
            final(self).wf(),
            (old(self).finished || chunk.seq < old(self).recv_next) ==> *final(self) == *old(self)
                && r@.len() == 0,
            (!old(self).finished && chunk.seq >= old(self).recv_next) ==> ({
                let m = old(self).recv_map().insert(chunk.seq, chunk.data@);
                let run = drain_run(m, old(self).recv_next);
                &&& r@.len() == run.len()
                &&& (forall|i: int|
                    #![trigger r@[i]]
                    0 <= i < run.len() ==> r@[i].seq == old(self).recv_next + i && r@[i].data@
                        == run[i])
                &&& final(self).recv_next == old(self).recv_next + run.len()
                &&& final(self).finished == (run.len() > 0 && run.last().len() == 0)
                &&& (final(self).finished ==> final(self).recv_map() == Map::<u32, Seq<u8>>::empty())
                &&& (!final(self).finished ==> final(self).recv_map() == drop_run(
                    m,
                    old(self).recv_next,
                    run.len() as nat,
                ))
                &&& *final(self) == (WwrState {
                    recv_next: final(self).recv_next,
                    recv_buffer: final(self).recv_buffer,
                    finished: final(self).finished,
                    ..*old(self)
                })
            }),
    {
        if self.finished {
            return Vec::new();
        }
        if chunk.seq < self.recv_next {
            return Vec::new();
        }
        let ghost seq0 = chunk.seq;
        let ghost data0 = chunk.data@;
        // Store the chunk, superseding any buffered entry with its sequence
        // number.
        match find_seq_index(&self.recv_buffer, chunk.seq) {
            Some(i) => {
                proof {
                    lemma_chunks_map_remove(self.recv_buffer@, i as int);
                }
                let ghost pre = self.recv_buffer@;
                self.recv_buffer.remove(i);
                proof {
                    assert forall|a: int, b: int|
                        0 <= a < b < self.recv_buffer@.len() implies self.recv_buffer@[a].seq
                        != self.recv_buffer@[b].seq by {
                        if b < i {
                        } else if a < i {
                            assert(self.recv_buffer@[b] == pre[b + 1]);
                        } else {
                            assert(self.recv_buffer@[a] == pre[a + 1]);
                            assert(self.recv_buffer@[b] == pre[b + 1]);
                        }
                    }
                    assert forall|j: int|
                        0 <= j < self.recv_buffer@.len() implies (#[trigger] self.recv_buffer@[j]).seq
                        != seq0 by {
                        if j < i {
                            assert(self.recv_buffer@[j] == pre[j]);
                            assert(pre[j].seq != pre[i as int].seq);
                        } else {
                            assert(self.recv_buffer@[j] == pre[j + 1]);
                            assert(pre[j + 1].seq != pre[i as int].seq);
                        }
                    }
                }
            },
            None => {
                proof {
                    assert forall|j: int|
                        0 <= j < self.recv_buffer@.len() implies (#[trigger] self.recv_buffer@[j]).seq
                        != seq0 by {
                        assert(has_seq(self.recv_buffer@, seq0) || self.recv_buffer@[j].seq != seq0);
                    }
                }
            },
        }
        let ghost pre2 = self.recv_buffer@;
        proof {
            lemma_chunks_map(pre2);
        }
        self.recv_buffer.push(chunk);
        proof {
            assert(self.recv_buffer@.drop_last() =~= pre2);
            assert(self.recv_map() =~= old(self).recv_map().insert(seq0, data0));
            assert forall|a: int, b: int|
                0 <= a < b < self.recv_buffer@.len() implies self.recv_buffer@[a].seq
                != self.recv_buffer@[b].seq by {
                if b == self.recv_buffer@.len() - 1 {
                    assert(pre2[a].seq != seq0);
                }
            }
        }
        let ghost m0 = self.recv_map();
        let ghost rn0 = self.recv_next;
        let ghost run = drain_run(m0, rn0);
        proof {
            lemma_chunks_map(self.recv_buffer@);
        }
        let mut out: Vec<Chunk> = Vec::new();
        proof {
            assert(run.skip(0) =~~= run);
            assert(drop_run(m0, rn0, 0) == m0);
        }
        loop
            invariant
                !old(self).finished,
                !self.finished,
                seq0 == chunk.seq,
                data0 == chunk.data@,
                seq0 >= rn0,
                seq0 < u32::MAX,
                rn0 == old(self).recv_next,
                m0 == old(self).recv_map().insert(seq0, data0),
                run == drain_run(m0, rn0),
                self.mtu >= 1,
                self.send_base <= self.send_next,
                self.send_next - self.send_base <= self.window_size,
                distinct_seqs(self.recv_buffer@),
                forall|i: int|
                    0 <= i < self.recv_buffer@.len() ==> self.recv_next
                        <= #[trigger] self.recv_buffer@[i].seq < u32::MAX,
                rn0 <= self.recv_next <= u32::MAX,
                out@.len() == self.recv_next - rn0,
                out@.len() <= run.len(),
                self.recv_map() == drop_run(m0, rn0, out@.len() as nat),
                run.skip(out@.len() as int) == drain_run(self.recv_map(), self.recv_next),
                forall|i: int|
                    #![trigger out@[i]]
                    0 <= i < out@.len() ==> out@[i].seq == rn0 + i && out@[i].data@ == run[i]
                        && out@[i].data@.len() > 0,
                self.window_size == old(self).window_size,
                self.mtu == old(self).mtu,
                self.send_base == old(self).send_base,
                self.send_next == old(self).send_next,
                self.send_buffer == old(self).send_buffer,
            ensures
                !self.finished,
                out@.len() == run.len(),
            decreases self.recv_buffer@.len(),
        {
            let ghost cur = self.recv_map();
            let ghost rn = self.recv_next;
            proof {
                lemma_chunks_map(self.recv_buffer@);
            }
            match find_seq_index(&self.recv_buffer, self.recv_next) {
                None => {
                    proof {
                        assert(!cur.contains_key(rn));
                        assert(drain_run(cur, rn) =~~= Seq::<Seq<u8>>::empty());
                        assert(run.skip(out@.len() as int).len() == 0);
                        assert(run.len() == out@.len());
                    }
                    break;
                },
                Some(i) => {
                    proof {
                        lemma_chunks_map_at(self.recv_buffer@, i as int);
                        lemma_chunks_map_remove(self.recv_buffer@, i as int);
                        lemma_drop_run_snoc(m0, rn0, out@.len() as nat);
                    }
                    let ghost pre = self.recv_buffer@;
                    let c = self.recv_buffer.remove(i);
                    proof {
                        assert(cur[rn] == c.data@);
                        assert forall|a: int, b: int|
                            0 <= a < b < self.recv_buffer@.len() implies self.recv_buffer@[a].seq
                            != self.recv_buffer@[b].seq by {
                            if b < i {
                            } else if a < i {
                                assert(self.recv_buffer@[b] == pre[b + 1]);
                            } else {
                                assert(self.recv_buffer@[a] == pre[a + 1]);
                                assert(self.recv_buffer@[b] == pre[b + 1]);
                            }
                        }
                        assert forall|j: int|
                            0 <= j < self.recv_buffer@.len() implies rn + 1
                            <= #[trigger] self.recv_buffer@[j].seq < u32::MAX by {
                            if j < i {
                                assert(self.recv_buffer@[j] == pre[j]);
                                assert(pre[j].seq != pre[i as int].seq);
                            } else {
                                assert(self.recv_buffer@[j] == pre[j + 1]);
                                assert(pre[j + 1].seq != pre[i as int].seq);
                            }
                        }
                    }
                    let is_end = c.data.len() == 0;
                    proof {
                        assert(drain_run(cur, rn) == if cur[rn].len() == 0 {
                            seq![cur[rn]]
                        } else {
                            seq![cur[rn]] + drain_run(cur.remove(rn), ((rn as int + 1) as u32))
                        });
                        assert(drain_run(cur, rn).len() >= 1);
                        assert(run.skip(out@.len() as int).len() >= 1);
                        assert(run.len() > out@.len());
                        assert(run.skip(out@.len() as int)[0] == cur[rn]);
                        assert(run[out@.len() as int] == cur[rn]);
                    }
                    let ghost k = out@.len() as int;
                    out.push(c);
                    self.recv_next = self.recv_next + 1;
                    if is_end {
                        self.recv_buffer = Vec::new();
                        self.finished = true;
                        proof {
                            assert(run.skip(k) =~~= seq![cur[rn]]);
                            assert(run.len() == k + 1);
                            assert(run.last() == cur[rn]);
                            assert(self.recv_map() =~= Map::<u32, Seq<u8>>::empty());
                            assert(out@ =~= out@.take(k).push(out@[k]));
                        }
                        proof {
                            assert(forall|i: int|
                                #![trigger out@[i]]
                                0 <= i < out@.len() ==> out@[i].seq == rn0 + i && out@[i].data@
                                    == run[i]);
                        }
                        return out;
                    }
                    proof {
                        let rest = drain_run(cur.remove(rn), ((rn as int + 1) as u32));
                        assert(run.skip(k) == seq![cur[rn]] + rest);
                        assert(run.skip(k).len() == 1 + rest.len());
                        assert forall|i: int| 0 <= i < rest.len() implies run.skip(k + 1)[i]
                            == rest[i] by {
                            assert(run.skip(k + 1)[i] == run[k + 1 + i]);
                            assert(run.skip(k)[i + 1] == run[k + 1 + i]);
                            assert(run.skip(k)[i + 1] == (seq![cur[rn]] + rest)[i + 1]);
                        }
                        assert(run.skip(k + 1) =~~= rest);
                    }
                },
            }
        }
        proof {
            assert(!self.finished);
            assert(run.len() == 0 || run.last().len() > 0) by {
                if run.len() > 0 {
                    assert(out@[run.len() - 1].data@ == run[run.len() - 1]);
                }
            }
        }
        out
    }
}

} // verus!
