//! Per-exchange session glue: absorb one inbound packet into the transfer
//! state and build the next outbound packet. The TCP side of the bridge is
//! driven by the caller through the returned `Delivery`.

use vstd::prelude::*;
use crate::wwr::{
    WwrState, Packet, Chunk, drain_run, concat_all, lemma_drain_run_shape, lemma_chunks_map,
};

verus! {

/// What one inbound packet yields for the TCP side: bytes to forward, and
/// whether the peer ended its stream.
pub struct Delivery {
    pub data: Vec<u8>,
    pub finished: bool,
}

/// The transfer state after a cumulative acknowledgment is absorbed.
pub open spec fn acked_state(s: WwrState, ack: u32) -> WwrState {
    WwrState {
        send_base: if ack <= s.send_base {
            s.send_base
        } else if ack <= s.send_next {
            ack
        } else {
            s.send_next
        },
        ..s
    }
}

/// Absorb one inbound packet: the acknowledgment always advances the send
/// window; the chunk, when present and when the TCP side can accept bytes,
/// is reassembled and the in-order bytes are returned, ending at the first
/// zero-length (end-of-stream) chunk.
pub fn handle_packet_in(packet: Packet, state: &mut WwrState, can_send: bool) -> (r: Delivery)
    requires
        old(state).wf(),
        packet.chunk matches Some(c) ==> c.seq < u32::MAX,
    ensures
        final(state).wf(),
        (!can_send || packet.chunk is None) ==> *final(state) == acked_state(
            *old(state),
            packet.ack,
        ) && r.data@.len() == 0 && !r.finished,
        (can_send && packet.chunk is Some) ==> ({
            let c = packet.chunk->0;
            let s1 = acked_state(*old(state), packet.ack);
            &&& (s1.finished || c.seq < s1.recv_next) ==> *final(state) == s1 && r.data@.len()
                == 0 && !r.finished
            &&& (!s1.finished && c.seq >= s1.recv_next) ==> ({
                let m = s1.recv_map().insert(c.seq, c.data@);
                let run = drain_run(m, s1.recv_next);
                &&& r.data@ == concat_all(run)
                &&& r.finished == (run.len() > 0 && run.last().len() == 0)
                &&& final(state).finished == r.finished
                &&& final(state).recv_next == s1.recv_next + run.len()
                &&& *final(state) == (WwrState {
                    recv_next: final(state).recv_next,
                    recv_buffer: final(state).recv_buffer,
                    finished: final(state).finished,
                    ..s1
                })
            })
        }),
{
    state.handle_ack(packet.ack);
    let ghost s1 = *state;
    match packet.chunk {
        None => Delivery { data: Vec::new(), finished: false },
        Some(c) => {
            if !can_send {
                return Delivery { data: Vec::new(), finished: false };
            }
            let ghost m = s1.recv_map().insert(c.seq, c.data@);
            let ghost rn = s1.recv_next;
            let ghost run = drain_run(m, rn);
            proof {
                lemma_chunks_map(s1.recv_buffer@);
                assert(m.dom() =~= s1.recv_map().dom().insert(c.seq));
                lemma_drain_run_shape(m, rn);
            }
            let chunks = state.handle_chunk(c);
            let n = chunks.len();
            let mut data: Vec<u8> = Vec::new();
            let mut fin: bool = false;
            let mut i: usize = 0;
            if n == 0 {
                proof {
                    if !s1.finished && run.len() == 0 {
                        assert(concat_all(run) =~= Seq::<u8>::empty());
                    }
                }
                return Delivery { data, finished: false };
            }
            proof {
                assert(concat_all(run.take(0)) =~= Seq::<u8>::empty());
            }
            proof {
                assert(run.take(n as int) =~~= run);
            }
            while i < n
                invariant_except_break
                    !fin,
                    data@ == concat_all(run.take(i as int)),
                invariant
                    0 <= i <= n == chunks@.len(),
                    1 <= n == run.len(),
                    run == drain_run(m, rn),
                    run.take(n as int) == run,
                    forall|j: int| 0 <= j < run.len() - 1 ==> run[j].len() > 0,
                    forall|j: int|
                        #![trigger chunks@[j]]
                        0 <= j < n ==> chunks@[j].data@ == run[j],
                    forall|j: int| 0 <= j < i ==> #[trigger] run[j].len() > 0,
                ensures
                    data@ == concat_all(run),
                    fin == (run.len() > 0 && run.last().len() == 0),
                decreases n - i,
            {
                if chunks[i].data.len() == 0 {
                    fin = true;
                    proof {
                        assert(run[i as int].len() == 0);
                        assert(i == n - 1);
                        assert(run.take(i as int).push(run[i as int]) =~~= run);
                        assert(concat_all(run) == concat_all(run.take(i as int)) + run[i as int]);
                        assert(data@ =~= concat_all(run));
                        assert(run.last() == run[i as int]);
                    }
                    break;
                }
                data.extend_from_slice(chunks[i].data.as_slice());
                proof {
                    assert(run.take(i + 1).drop_last() =~= run.take(i as int));
                    assert(run.take(i + 1).last() == run[i as int]);
                    assert(data@ == concat_all(run.take(i + 1)));
                }
                i += 1;
            }
            Delivery { data, finished: fin }
        },
    }
}

/// Build the next outbound packet: the cumulative acknowledgment for the
/// receive side, and at most one chunk of queued send data. The caller pulls
/// TCP bytes into the send buffer, guarded by `send_buffer_space`, before
/// calling.
pub fn next_packet_out(state: &mut WwrState) -> (r: Packet)
    requires
        old(state).wf(),
        old(state).send_next < u32::MAX,
    ensures
        final(state).wf(),
        r.ack == old(state).recv_next,
        (old(state).send_buffer@.len() == 0 || old(state).send_next - old(state).send_base
            >= old(state).window_size) ==> r.chunk is None && *final(state) == *old(state),
        (old(state).send_buffer@.len() > 0 && old(state).send_next - old(state).send_base < old(
            state,
        ).window_size) ==> ({
            let take = if old(state).send_buffer@.len() <= old(state).mtu {
                old(state).send_buffer@.len() as int
            } else {
                old(state).mtu as int
            };
            &&& r.chunk matches Some(c) && c.seq == old(state).send_next && c.data@ == old(
                state,
            ).send_buffer@.take(take)
            &&& final(state).send_buffer@ == old(state).send_buffer@.skip(take)
            &&& *final(state) == (WwrState {
                send_next: (old(state).send_next + 1) as u32,
                send_buffer: final(state).send_buffer,
                ..*old(state)
            })
        }),
{
    let ack = state.next_send_ack();
    let chunk = state.next_send_chunk();
    Packet { ack, chunk }
}

} // verus!
