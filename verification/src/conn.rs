//! Per-connection receive state machine: reassembles the byte stream
//! into whole 1288-byte records, recovers from desynchronisation by
//! clearing an overgrown accumulator, enforces inactivity and
//! read-timeout limits, and reports a terminal reason on exit.

use vstd::prelude::*;
use crate::frame::{
    frame_decodes, parse_plc_packet, vars_decode, Frame, PlcDataPacket, EXPECTED_PACKET_SIZE,
};
use crate::registry::{only_health_changed, sat_add_u64, seq_contains_ip, Registry};

verus! {

pub const READ_TIMEOUT_SECS: u64 = 15;

pub const INACTIVITY_TIMEOUT_SECS: u64 = 180;

pub const FRAGMENT_WARN_SECS: u64 = 30;

pub const FRAGMENT_CLEAR_SECS: u64 = 90;

pub const WATCHDOG_INTERVAL_MS: u64 = 2000;

pub const MAX_ACCUMULATOR_SIZE: usize = EXPECTED_PACKET_SIZE * 3;

pub const MAX_CONSECUTIVE_TIMEOUTS: u32 = 3;

/// What one socket read delivered, as seen by the state machine.
#[derive(Debug)]
pub enum ReadEvent {
    /// The read returned bytes.
    Data(Vec<u8>),
    /// The read returned zero bytes: the peer half-closed.
    Closed,
    /// The read failed with an I/O error.
    Failed(String),
    /// The read timed out.
    TimedOut,
}

/// Why a connection that exited with a timeout did so.
#[derive(Debug, Clone, PartialEq, Eq, Structural)]
pub enum TimeoutKind {
    Inactivity { seconds_without_data: u64 },
    ConsecutiveReadTimeouts { count: u32 },
}

/// Terminal state of one connection.
#[derive(Debug)]
pub enum ConnectionResult {
    /// The peer closed; carries the total bytes received.
    Normal(u64),
    Timeout(TimeoutKind),
    Error(String),
    ServerStopped,
}

/// What the driving loop should do after one event.
#[derive(Debug)]
pub enum StepOutcome {
    /// Keep reading; publish these frames first.
    Continue(Vec<Frame>),
    /// Stop reading and run the removal policy with this reason.
    Exit(ConnectionResult),
}

/// The handler's task-local state for one connection. Times are Unix
/// seconds handed in by the caller.
pub struct ConnectionState {
    pub conn_id: u64,
    pub ip: String,
    pub accumulator: Vec<u8>,
    pub total_bytes: u64,
    pub packet_count: u64,
    pub consecutive_timeouts: u32,
    pub last_valid_packet: u64,
    pub last_fragment_time: u64,
    pub started_at: u64,
}

impl ConnectionState {
    /// The accumulator never exceeds its cap, and the timeout counter
    /// never passes the limit.
    pub open spec fn wf(self) -> bool {
        &&& self.accumulator@.len() <= MAX_ACCUMULATOR_SIZE
        &&& self.consecutive_timeouts <= MAX_CONSECUTIVE_TIMEOUTS
    }

    /// Fresh handler state for a connection established at `now`.
    pub fn new(conn_id: u64, ip: String, now: u64) -> (s: ConnectionState)
        ensures
            s.wf(),
            s.conn_id == conn_id,
            s.ip == ip,
            s.accumulator@.len() == 0,
            s.total_bytes == 0,
            s.packet_count == 0,
            s.consecutive_timeouts == 0,
            s.last_valid_packet == now,
            s.last_fragment_time == now,
            s.started_at == now,
    {
        ConnectionState {
            conn_id,
            ip,
            accumulator: Vec::new(),
            total_bytes: 0,
            packet_count: 0,
            consecutive_timeouts: 0,
            last_valid_packet: now,
            last_fragment_time: now,
            started_at: now,
        }
    }

    /// No whole record has been seen for longer than the inactivity limit.
    pub open spec fn inactivity_exceeded(self, now: u64) -> bool {
        now - self.last_valid_packet > INACTIVITY_TIMEOUT_SECS
    }

    /// A partial record has been sitting unextended for too long.
    pub open spec fn fragments_stale(self, now: u64) -> bool {
        self.accumulator@.len() > 0 && now - self.last_fragment_time > FRAGMENT_CLEAR_SECS
    }
}

/// Everything one delivery of bytes does, stated over the values before
/// and after. `pre_acc`, `pre_total`, `pre_pc` and `pre_lvp` are the
/// handler's accumulator, byte total, packet count and last-valid-packet
/// time before the delivery. The delivered bytes are appended to the
/// accumulator; if that would pass the cap, everything is discarded and
/// no frame is emitted; otherwise every whole leading 1288-byte chunk is
/// removed, decoded in order, published and cached, and the remainder
/// stays buffered.
pub open spec fn data_ingested(
    ip: Seq<char>,
    pre_acc: Seq<u8>,
    pre_total: u64,
    pre_pc: u64,
    pre_lvp: u64,
    post: ConnectionState,
    preg: Registry,
    postg: Registry,
    data: Seq<u8>,
    frames: Seq<Frame>,
    now: u64,
    ts: Seq<char>,
) -> bool {
    let total = pre_acc + data;
    let k = total.len() as int / EXPECTED_PACKET_SIZE as int;
    &&& post.consecutive_timeouts == 0
    &&& post.total_bytes == sat_add_u64(pre_total, data.len() as u64)
    &&& post.last_fragment_time == now
    &&& (if total.len() > MAX_ACCUMULATOR_SIZE {
        &&& post.accumulator@ == Seq::<u8>::empty()
        &&& frames.len() == 0
        &&& post.packet_count == pre_pc
        &&& post.last_valid_packet == pre_lvp
    } else {
        &&& frames.len() == k
        &&& forall|i: int|
            0 <= i < k ==> #[trigger] frame_decodes(
                total.subrange(i * EXPECTED_PACKET_SIZE, (i + 1) * EXPECTED_PACKET_SIZE),
                frames[i],
            )
        &&& forall|i: int| 0 <= i < k ==> (#[trigger] frames[i]).timestamp@ == ts
        &&& post.accumulator@ == total.skip(k * EXPECTED_PACKET_SIZE)
        &&& post.packet_count == sat_add_u64(pre_pc, k as u64)
        &&& post.last_valid_packet == if k > 0 {
            now
        } else {
            pre_lvp
        }
    })
    &&& postg.last_data_time == now
    &&& postg.bytes_received@ =~= preg.bytes_received@.insert(
        ip,
        sat_add_u64(
            if preg.bytes_received@.contains_key(ip) {
                preg.bytes_received@[ip]
            } else {
                0
            },
            data.len() as u64,
        ),
    )
    &&& (preg.is_live(ip) ==> {
        let pre_h = preg.connection_health@[ip];
        let post_h = postg.connection_health@[ip];
        &&& postg.connection_health@.contains_key(ip)
        &&& postg.connection_health@.remove(ip) =~= preg.connection_health@.remove(ip)
        &&& post_h.last_data_received == now
        &&& post_h.total_bytes == post.total_bytes
        &&& post_h.is_alive
        &&& post_h.packet_count == if frames.len() > 0 {
            post.packet_count
        } else {
            pre_h.packet_count
        }
        &&& post_h.ip@ == pre_h.ip@
        &&& post_h.conn_id == pre_h.conn_id
        &&& post_h.connected_at == pre_h.connected_at
        &&& post_h.removal_in_progress == pre_h.removal_in_progress
    })
    &&& (!preg.is_live(ip) ==> postg.connection_health@ == preg.connection_health@)
    &&& (if frames.len() > 0 {
        let total2 = pre_acc + data;
        let kk = total2.len() as int / EXPECTED_PACKET_SIZE as int;
        let last_chunk = total2.subrange(
            (kk - 1) * EXPECTED_PACKET_SIZE,
            kk * EXPECTED_PACKET_SIZE,
        );
        let p = postg.latest_data@[ip];
        &&& postg.latest_data@.contains_key(ip)
        &&& postg.latest_data@.remove(ip) =~= preg.latest_data@.remove(ip)
        &&& p.ip@ == ip
        &&& p.timestamp == now
        &&& p.size == EXPECTED_PACKET_SIZE
        &&& vars_decode(last_chunk, p.variables@)
    } else {
        postg.latest_data@ == preg.latest_data@
    })
    &&& postg.connected_clients@ == preg.connected_clients@
    &&& postg.connection_handles@ == preg.connection_handles@
    &&& postg.unique_plcs@ == preg.unique_plcs@
    &&& postg.blacklisted_ips@ == preg.blacklisted_ips@
    &&& postg.ip_to_id@ == preg.ip_to_id@
    &&& postg.active_connections == preg.active_connections
    &&& postg.total_connection_count == preg.total_connection_count
    &&& postg.next_id == preg.next_id
    &&& postg.is_running == preg.is_running
}

impl ConnectionState {
    /// Takes one delivery of bytes: appends to the accumulator (or
    /// clears it on overflow), extracts and decodes every whole record,
    /// updates the registry's read and packet bookkeeping, and returns
    /// the decoded frames in order.
    pub fn on_data(
        &mut self,
        reg: &mut Registry,
        data: &Vec<u8>,
        now: u64,
        now_text: &str,
    ) -> (frames: Vec<Frame>)
        requires
            old(self).wf(),
            old(reg).wf(),
            seq_contains_ip(old(reg).unique_plcs@, old(self).ip@),
            data@.len() > 0,
        ensures
            final(self).wf(),
            final(reg).wf(),
            final(self).ip@ == old(self).ip@,
            final(self).conn_id == old(self).conn_id,
            final(self).started_at == old(self).started_at,
            data_ingested(
                old(self).ip@,
                old(self).accumulator@,
                old(self).total_bytes,
                old(self).packet_count,
                old(self).last_valid_packet,
                *final(self),
                *old(reg),
                *final(reg),
                data@,
                frames@,
                now,
                now_text@,
            ),
    {
        self.consecutive_timeouts = 0;
        let n = data.len();
        self.total_bytes = self.total_bytes.saturating_add(n as u64);
        let ip = self.ip.clone();
        reg.record_read(&ip, n as u64, now, self.total_bytes);
        let ghost reg1 = *reg;
        self.last_fragment_time = now;
        let ghost total = old(self).accumulator@ + data@;
        if n > MAX_ACCUMULATOR_SIZE - self.accumulator.len() {
            self.accumulator.clear();
            proof {
                assert(total.len() > MAX_ACCUMULATOR_SIZE);
            }
            return Vec::new();
        }
        self.accumulator.extend_from_slice(data.as_slice());
        proof {
            assert(self.accumulator@ == total);
            assert(total.len() <= MAX_ACCUMULATOR_SIZE);
            assert(total.skip(0) =~= total);
        }
        let ghost k = total.len() as int / EXPECTED_PACKET_SIZE as int;
        let mut frames: Vec<Frame> = Vec::new();
        while self.accumulator.len() >= EXPECTED_PACKET_SIZE
            invariant
                self.wf(),
                reg.wf(),
                seq_contains_ip(reg.unique_plcs@, self.ip@),
                self.ip@ == old(self).ip@,
                self.conn_id == old(self).conn_id,
                self.started_at == old(self).started_at,
                self.consecutive_timeouts == 0,
                self.total_bytes == sat_add_u64(old(self).total_bytes, data@.len() as u64),
                self.last_fragment_time == now,
                total == old(self).accumulator@ + data@,
                total.len() <= MAX_ACCUMULATOR_SIZE,
                k == total.len() as int / EXPECTED_PACKET_SIZE as int,
                frames@.len() <= k,
                self.accumulator@ == total.skip(frames@.len() * EXPECTED_PACKET_SIZE as int),
                forall|i: int|
                    0 <= i < frames@.len() ==> #[trigger] frame_decodes(
                        total.subrange(
                            i * EXPECTED_PACKET_SIZE,
                            (i + 1) * EXPECTED_PACKET_SIZE,
                        ),
                        frames@[i],
                    ),
                forall|i: int|
                    0 <= i < frames@.len() ==> (#[trigger] frames@[i]).timestamp@ == now_text@,
                self.packet_count == sat_add_u64(old(self).packet_count, frames@.len() as u64),
                self.last_valid_packet == if frames@.len() > 0 {
                    now
                } else {
                    old(self).last_valid_packet
                },
                reg.last_data_time == now,
                reg.bytes_received@ == reg1.bytes_received@,
                reg1.is_live(self.ip@) ==> {
                    let pre_h = reg1.connection_health@[self.ip@];
                    let post_h = reg.connection_health@[self.ip@];
                    &&& reg.connection_health@.contains_key(self.ip@)
                    &&& reg.connection_health@.remove(self.ip@) =~= reg1.connection_health@.remove(
                        self.ip@,
                    )
                    &&& post_h.last_data_received == pre_h.last_data_received
                    &&& post_h.total_bytes == pre_h.total_bytes
                    &&& post_h.is_alive == pre_h.is_alive
                    &&& post_h.packet_count == if frames@.len() > 0 {
                        self.packet_count
                    } else {
                        pre_h.packet_count
                    }
                    &&& post_h.ip@ == pre_h.ip@
                    &&& post_h.conn_id == pre_h.conn_id
                    &&& post_h.connected_at == pre_h.connected_at
                    &&& post_h.removal_in_progress == pre_h.removal_in_progress
                },
                !reg1.is_live(self.ip@) ==> reg.connection_health@ == reg1.connection_health@,
                (if frames@.len() > 0 {
                    let last_chunk = total.subrange(
                        (frames@.len() - 1) * EXPECTED_PACKET_SIZE,
                        frames@.len() * EXPECTED_PACKET_SIZE,
                    );
                    let p = reg.latest_data@[self.ip@];
                    &&& reg.latest_data@.contains_key(self.ip@)
                    &&& reg.latest_data@.remove(self.ip@) =~= reg1.latest_data@.remove(self.ip@)
                    &&& p.ip@ == self.ip@
                    &&& p.timestamp == now
                    &&& p.size == EXPECTED_PACKET_SIZE
                    &&& vars_decode(
                        total.subrange(
                            (frames@.len() - 1) * EXPECTED_PACKET_SIZE,
                            frames@.len() * EXPECTED_PACKET_SIZE,
                        ),
                        p.variables@,
                    )
                } else {
                    reg.latest_data@ == reg1.latest_data@
                }),
                reg.connected_clients@ == reg1.connected_clients@,
                reg.connection_handles@ == reg1.connection_handles@,
                reg.unique_plcs@ == reg1.unique_plcs@,
                reg.blacklisted_ips@ == reg1.blacklisted_ips@,
                reg.ip_to_id@ == reg1.ip_to_id@,
                reg.active_connections == reg1.active_connections,
                reg.total_connection_count == reg1.total_connection_count,
                reg.next_id == reg1.next_id,
                reg.is_running == reg1.is_running,
            decreases self.accumulator@.len(),
        {
            let ghost j = frames@.len();
            proof {
                // There is room for one more whole record, so fewer than
                // `k` records have been taken so far.
                assert(total.len() - j * EXPECTED_PACKET_SIZE >= EXPECTED_PACKET_SIZE);
                assert(j < k) by (nonlinear_arith)
                    requires
                        k == total.len() as int / EXPECTED_PACKET_SIZE as int,
                        total.len() - j * EXPECTED_PACKET_SIZE >= EXPECTED_PACKET_SIZE,
                        j >= 0,
                        EXPECTED_PACKET_SIZE == 1288,
                ;
            }
            let mut tail = self.accumulator.split_off(EXPECTED_PACKET_SIZE);
            core::mem::swap(&mut self.accumulator, &mut tail);
            let chunk = tail;
            proof {
                assert(chunk@ =~= total.subrange(
                    j * EXPECTED_PACKET_SIZE,
                    (j + 1) * EXPECTED_PACKET_SIZE,
                ));
                assert(self.accumulator@ =~= total.skip((j + 1) * EXPECTED_PACKET_SIZE));
            }
            self.packet_count = self.packet_count.saturating_add(1);
            self.last_valid_packet = now;
            let ts: String = now_text.to_owned();
            let ip2 = self.ip.clone();
            match parse_plc_packet(&chunk, ts) {
                Ok((frame, vars)) => {
                    let packet = PlcDataPacket {
                        ip: self.ip.clone(),
                        timestamp: now,
                        size: chunk.len(),
                        variables: vars,
                    };
                    reg.record_packet(&ip2, self.packet_count, packet);
                    frames.push(frame);
                },
                Err(_) => {
                    proof {
                        assert(false);
                    }
                },
            }
        }
        proof {
            // Fewer than one record remains, so every whole record was taken.
            let j = frames@.len() as int;
            assert(total.len() - j * EXPECTED_PACKET_SIZE < EXPECTED_PACKET_SIZE);
            assert(j == k) by (nonlinear_arith)
                requires
                    k == total.len() as int / EXPECTED_PACKET_SIZE as int,
                    total.len() - j * EXPECTED_PACKET_SIZE < EXPECTED_PACKET_SIZE,
                    total.len() - j * EXPECTED_PACKET_SIZE >= 0,
                    j >= 0,
                    EXPECTED_PACKET_SIZE == 1288,
            ;
        }
        frames
    }
}

} // verus!

verus! {

impl ConnectionState {
    /// One turn of the receive loop: observes the server flag, enforces
    /// the inactivity limit, clears stale fragments, then takes one read
    /// event. Bytes are ingested (see [`data_ingested`]); zero bytes end
    /// the connection normally; an I/O error ends it with the message
    /// recorded in health; a read timeout ends it after the third in a
    /// row.
    pub fn step(
        &mut self,
        reg: &mut Registry,
        now: u64,
        now_text: &str,
        event: ReadEvent,
    ) -> (out: StepOutcome)
        requires
            old(self).wf(),
            old(reg).wf(),
            seq_contains_ip(old(reg).unique_plcs@, old(self).ip@),
            event matches ReadEvent::Data(d) ==> d@.len() > 0,
        ensures
            final(self).wf(),
            final(reg).wf(),
            final(self).ip@ == old(self).ip@,
            final(self).conn_id == old(self).conn_id,
            final(self).started_at == old(self).started_at,
            ({
                let stale = old(self).fragments_stale(now);
                let mid_acc = if stale {
                    Seq::<u8>::empty()
                } else {
                    old(self).accumulator@
                };
                if !old(reg).is_running {
                    &&& out matches StepOutcome::Exit(ConnectionResult::ServerStopped)
                    &&& *final(self) == *old(self)
                    &&& *final(reg) == *old(reg)
                } else if old(self).inactivity_exceeded(now) {
                    &&& out matches StepOutcome::Exit(ConnectionResult::Timeout(
                        TimeoutKind::Inactivity { seconds_without_data },
                    )) && seconds_without_data == now - old(self).last_valid_packet
                    &&& *final(self) == *old(self)
                    &&& *final(reg) == *old(reg)
                } else {
                    match event {
                        ReadEvent::Data(d) => {
                            &&& out matches StepOutcome::Continue(frames) && data_ingested(
                                old(self).ip@,
                                mid_acc,
                                old(self).total_bytes,
                                old(self).packet_count,
                                old(self).last_valid_packet,
                                *final(self),
                                *old(reg),
                                *final(reg),
                                d@,
                                frames@,
                                now,
                                now_text@,
                            )
                        },
                        ReadEvent::Closed => {
                            &&& out matches StepOutcome::Exit(ConnectionResult::Normal(b))
                                && b == old(self).total_bytes
                            &&& *final(reg) == *old(reg)
                        },
                        ReadEvent::Failed(msg) => {
                            &&& out matches StepOutcome::Exit(ConnectionResult::Error(e)) && e@
                                == msg@
                            &&& only_health_changed(*old(reg), *final(reg))
                            &&& final(reg).connection_health@.remove(old(self).ip@) =~= old(reg).connection_health@.remove(old(self).ip@)
                            &&& (old(reg).is_live(old(self).ip@) ==> {
                                let h = final(reg).connection_health@[old(self).ip@];
                                &&& final(reg).connection_health@.contains_key(old(self).ip@)
                                &&& !h.is_alive
                                &&& h.last_error is Some
                                &&& h.last_error->0@ == msg@
                            })
                            &&& (!old(reg).is_live(old(self).ip@) ==> final(reg).connection_health@ == old(reg).connection_health@)
                        },
                        ReadEvent::TimedOut => {
                            if old(self).consecutive_timeouts + 1 < MAX_CONSECUTIVE_TIMEOUTS {
                                &&& out matches StepOutcome::Continue(frames) && frames@.len()
                                    == 0
                                &&& final(self).consecutive_timeouts == old(
                                    self,
                                ).consecutive_timeouts + 1
                                &&& final(self).accumulator@ == mid_acc
                                &&& final(self).total_bytes == old(self).total_bytes
                                &&& final(self).packet_count == old(self).packet_count
                                &&& *final(reg) == *old(reg)
                            } else {
                                &&& out matches StepOutcome::Exit(ConnectionResult::Timeout(
                                    TimeoutKind::ConsecutiveReadTimeouts { count },
                                )) && count == if old(self).consecutive_timeouts
                                    < MAX_CONSECUTIVE_TIMEOUTS {
                                    (old(self).consecutive_timeouts + 1) as u32
                                } else {
                                    old(self).consecutive_timeouts
                                }
                                &&& only_health_changed(*old(reg), *final(reg))
                                &&& (old(reg).is_live(old(self).ip@) ==> {
                                    let h = final(reg).connection_health@[old(self).ip@];
                                    &&& final(reg).connection_health@.contains_key(old(self).ip@)
                                    &&& !h.is_alive
                                    &&& h.last_error is Some
                                })
                            }
                        },
                    }
                }
            }),
    {
        if !reg.is_running {
            return StepOutcome::Exit(ConnectionResult::ServerStopped);
        }
        let idle = now.saturating_sub(self.last_valid_packet);
        if idle > INACTIVITY_TIMEOUT_SECS {
            return StepOutcome::Exit(
                ConnectionResult::Timeout(TimeoutKind::Inactivity { seconds_without_data: idle }),
            );
        }
        if self.accumulator.len() > 0 && now.saturating_sub(self.last_fragment_time)
            > FRAGMENT_CLEAR_SECS {
            self.accumulator.clear();
            self.last_fragment_time = now;
        }
        match event {
            ReadEvent::Data(d) => {
                let frames = self.on_data(reg, &d, now, now_text);
                StepOutcome::Continue(frames)
            },
            ReadEvent::Closed => StepOutcome::Exit(ConnectionResult::Normal(self.total_bytes)),
            ReadEvent::Failed(msg) => {
                let ip = self.ip.clone();
                reg.mark_connection_error(&ip, msg.clone());
                StepOutcome::Exit(ConnectionResult::Error(msg))
            },
            ReadEvent::TimedOut => {
                if self.consecutive_timeouts < MAX_CONSECUTIVE_TIMEOUTS {
                    self.consecutive_timeouts = self.consecutive_timeouts + 1;
                }
                if self.consecutive_timeouts >= MAX_CONSECUTIVE_TIMEOUTS {
                    let ip = self.ip.clone();
                    reg.mark_connection_error(&ip, "3 timeouts consecutivos de 15s".to_owned());
                    StepOutcome::Exit(
                        ConnectionResult::Timeout(
                            TimeoutKind::ConsecutiveReadTimeouts {
                                count: self.consecutive_timeouts,
                            },
                        ),
                    )
                } else {
                    StepOutcome::Continue(Vec::new())
                }
            },
        }
    }
}

} // verus!

verus! {

/// Cross-read alignment law: when two successive deliveries on one
/// connection both fit the accumulator, the frames they publish,
/// taken together, decode the successive 1288-byte chunks of all the
/// bytes delivered since the accumulator was last empty or cleared, and
/// the remainder stays buffered. By induction over a connection's
/// reads, the i-th published frame always corresponds to bytes
/// `[1288*i, 1288*(i+1))` of the stream, up to any clearing event.
pub proof fn lemma_ingest_composes(
    ip: Seq<char>,
    acc0: Seq<u8>,
    pre_total: u64,
    pre_pc: u64,
    pre_lvp: u64,
    mid: ConnectionState,
    post: ConnectionState,
    r0: Registry,
    r1: Registry,
    r2: Registry,
    d1: Seq<u8>,
    d2: Seq<u8>,
    frames1: Seq<Frame>,
    frames2: Seq<Frame>,
    n1: u64,
    n2: u64,
    ts1: Seq<char>,
    ts2: Seq<char>,
)
    requires
        data_ingested(ip, acc0, pre_total, pre_pc, pre_lvp, mid, r0, r1, d1, frames1, n1, ts1),
        (acc0 + d1).len() <= MAX_ACCUMULATOR_SIZE,
        data_ingested(
            ip,
            mid.accumulator@,
            mid.total_bytes,
            mid.packet_count,
            mid.last_valid_packet,
            post,
            r1,
            r2,
            d2,
            frames2,
            n2,
            ts2,
        ),
        (mid.accumulator@ + d2).len() <= MAX_ACCUMULATOR_SIZE,
    ensures
        ({
            let b = acc0 + d1 + d2;
            let k = frames1.len() + frames2.len();
            &&& k == b.len() as int / EXPECTED_PACKET_SIZE as int
            &&& forall|i: int|
                0 <= i < k ==> frame_decodes(
                    b.subrange(i * EXPECTED_PACKET_SIZE, (i + 1) * EXPECTED_PACKET_SIZE),
                    (frames1 + frames2)[i],
                )
            &&& post.accumulator@ == b.skip(k * EXPECTED_PACKET_SIZE)
        }),
{
    let b = acc0 + d1 + d2;
    let t1 = acc0 + d1;
    let sz = EXPECTED_PACKET_SIZE as int;
    let k1 = t1.len() as int / sz;
    let t2 = mid.accumulator@ + d2;
    let k2 = t2.len() as int / sz;
    assert(mid.accumulator@ == t1.skip(k1 * sz));
    assert(t2 =~= b.skip(k1 * sz));
    vstd::arithmetic::div_mod::lemma_fundamental_div_mod(t1.len() as int, sz);
    assert(0 <= k1 * sz <= t1.len()) by (nonlinear_arith)
        requires
            k1 == t1.len() as int / sz,
            sz == 1288,
            t1.len() >= 0,
    ;
    // The second total starts exactly where the first left off, so its
    // chunk count completes the first's.
    let rem1 = t1.len() - k1 * sz;
    assert(0 <= rem1 < sz) by (nonlinear_arith)
        requires
            k1 == t1.len() as int / sz,
            rem1 == t1.len() - k1 * sz,
            sz == 1288,
            t1.len() >= 0,
    ;
    assert(t2.len() == rem1 + d2.len());
    vstd::arithmetic::div_mod::lemma_hoist_over_denominator(
        rem1 + d2.len() as int,
        k1,
        EXPECTED_PACKET_SIZE as nat,
    );
    assert(b.len() == t1.len() + d2.len());
    assert(k1 + k2 == b.len() as int / sz);
    assert forall|i: int|
        0 <= i < k1 + k2 implies frame_decodes(
        b.subrange(i * sz, (i + 1) * sz),
        (frames1 + frames2)[i],
    ) by {
        if i < k1 {
            assert(frame_decodes(t1.subrange(i * sz, (i + 1) * sz), frames1[i]));
            assert(t1 =~= b.take(t1.len() as int));
            assert((i + 1) * sz <= t1.len()) by (nonlinear_arith)
                requires
                    i < k1,
                    k1 == t1.len() as int / sz,
                    sz == 1288,
                    t1.len() >= 0,
            ;
            assert(t1.subrange(i * sz, (i + 1) * sz) =~= b.subrange(i * sz, (i + 1) * sz));
            assert((frames1 + frames2)[i] == frames1[i]);
        } else {
            let j = i - k1;
            assert(frame_decodes(t2.subrange(j * sz, (j + 1) * sz), frames2[j]));
            assert(t2.subrange(j * sz, (j + 1) * sz) =~= b.subrange(
                k1 * sz + j * sz,
                k1 * sz + (j + 1) * sz,
            ));
            assert(k1 * sz + j * sz == i * sz && k1 * sz + (j + 1) * sz == (i + 1) * sz)
                by (nonlinear_arith)
                requires
                    i == k1 + j,
            ;
            assert((frames1 + frames2)[i] == frames2[j]);
        }
    }
    assert(post.accumulator@ == t2.skip(k2 * sz));
    assert(0 <= k2 * sz <= t2.len()) by (nonlinear_arith)
        requires
            k2 == t2.len() as int / sz,
            sz == 1288,
            t2.len() >= 0,
    ;
    assert(t2.skip(k2 * sz) =~= b.skip((k1 + k2) * sz)) by {
        assert((k1 + k2) * sz == k1 * sz + k2 * sz) by (nonlinear_arith);
    }
}

} // verus!
