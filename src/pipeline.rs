//! The per-core proxy: routes client-path and server-path segments through
//! the connection store, arms deadlines on a timer wheel and turns expired
//! deadlines into resets. It computes what to send; sending is the caller's.
use vstd::prelude::*;
use crate::cmanager::ConnectionManager;
use crate::connection::{
    after_client_fin, after_client_syn, after_open_server, after_server_fin,
    after_server_syn_ack, c2s_of, client_ack_post, client_reset_of, client_syn_reply, completes_client_handshake,
    fin_cause_after_client_fin, fin_cause_after_server_fin, forwards_client_fin,
    forwards_server_fin, reset_reply, reset_reply_of, s2c_of, timeout_cause, ProxyConnection,
    Stamps,
};
use crate::tcp::{
    has_flag, tuple_key, tuple_of, ClientTuple, ReleaseCause, ServerId, TcpHeader, TcpState,
    TCP_ACK, TCP_FIN, TCP_RST, TCP_SYN,
};
use crate::timer_wheel::{lemma_due_slot_stays_due, TimerWheel};

verus! {

/// What the proxy asks its caller to do.
#[derive(Clone, Copy, Debug, PartialEq, Eq, Structural)]
pub enum Output {
    /// a segment for the client link; a forwarded one carries the payload it
    /// arrived with
    ToClient(TcpHeader),
    /// a segment for the server link; a forwarded one carries the payload it
    /// arrived with, the one after the server's SYN-ACK the buffered payload
    ToServer(TcpHeader),
    /// a backend is to be selected for this handle (see
    /// `requests_selection`) and handed to `connect`
    SelectServer(usize),
}

/// Whether a client segment that took record `c` to `n` asks for a backend:
/// in payload-triggered mode, when the first payload is buffered while the
/// server side is still closed; otherwise when the client handshake
/// completes.
pub open spec fn requests_selection(
    on_payload: bool,
    c: ProxyConnection,
    n: ProxyConnection,
    completes: bool,
) -> bool {
    if on_payload {
        c.payload@.len() == 0 && n.payload@.len() > 0 && n.c_state == TcpState::Established
            && n.s_state == TcpState::Listen
    } else {
        completes
    }
}

/// An RST for either side.
pub open spec fn is_reset(o: Output) -> bool {
    match o {
        Output::ToClient(x) => x.flags == TCP_RST,
        Output::ToServer(x) => x.flags == TCP_RST,
        _ => false,
    }
}

/// `now + timeout`, or the largest cycle count where that overflows.
pub open spec fn deadline_after(now: u64, timeout: u64) -> u64 {
    if now + timeout <= u64::MAX {
        (now + timeout) as u64
    } else {
        u64::MAX
    }
}

fn deadline(now: u64, timeout: u64) -> (r: u64)
    ensures
        r == deadline_after(now, timeout),
{
    if now <= u64::MAX - timeout {
        now + timeout
    } else {
        u64::MAX
    }
}

fn one(o: Output) -> (r: Vec<Output>)
    ensures
        r@ == seq![o],
{
    let mut r: Vec<Output> = Vec::new();
    r.push(o);
    assert(r@ =~= seq![o]);
    r
}

fn none() -> (r: Vec<Output>)
    ensures
        r@ == Seq::<Output>::empty(),
{
    Vec::new()
}

/// The proxy of one core: its connection store and the timer wheel on which
/// the connections' deadlines are filed by handle.
pub struct Proxy {
    pool: ConnectionManager,
    wheel: TimerWheel<usize>,
    handshake_timeout: u64,
    established_timeout: u64,
    select_on_payload: bool,
}

impl Proxy {
    pub closed spec fn connections(&self) -> ConnectionManager {
        self.pool
    }

    pub closed spec fn timers(&self) -> TimerWheel<usize> {
        self.wheel
    }

    pub closed spec fn handshake_timeout_cycles(&self) -> u64 {
        self.handshake_timeout
    }

    /// Whether the backend is selected from the first payload rather than as
    /// soon as the client handshake completes.
    pub closed spec fn selects_on_payload(&self) -> bool {
        self.select_on_payload
    }

    pub closed spec fn established_timeout_cycles(&self) -> u64 {
        self.established_timeout
    }

    /// `n` keeps the wheel's clock and drained advance, the timeouts and the
    /// selection mode of `self`.
    pub open spec fn same_clock(&self, n: Proxy) -> bool {
        &&& n.timers().start_cycles() == self.timers().start_cycles()
        &&& n.timers().resolution() == self.timers().resolution()
        &&& n.timers().slot_count() == self.timers().slot_count()
        &&& n.timers().drained_advance() == self.timers().drained_advance()
        &&& n.handshake_timeout_cycles() == self.handshake_timeout_cycles()
        &&& n.established_timeout_cycles() == self.established_timeout_cycles()
        &&& n.selects_on_payload() == self.selects_on_payload()
    }

    /// Handle `h` waits in the wheel, in the slot its record names.
    pub open spec fn is_filed(&self, h: int) -> bool {
        let slot = self.connections().records()[h].wheel_slot;
        &&& slot < self.timers().slot_count()
        &&& self.timers().pending()[slot as int].contains(h as usize)
    }

    /// Every active connection is filed in the wheel, so each one's deadline
    /// is looked at again within one rotation.
    pub open spec fn wf(&self) -> bool {
        &&& self.connections().wf()
        &&& self.timers().wf()
        &&& forall|h: int| #[trigger] self.connections().is_active(h) ==> self.is_filed(h)
    }

    /// A proxy of `capacity` connections using the ephemeral ports from
    /// `first_port`, with a wheel of `slots` slots of `resolution` cycles
    /// started at cycle count `now`.
    pub fn new(
        capacity: usize,
        first_port: u16,
        slots: usize,
        resolution: u64,
        now: u64,
        handshake_timeout: u64,
        established_timeout: u64,
        select_on_payload: bool,
    ) -> (p: Proxy)
        requires
            first_port + capacity <= 0x1_0000,
            slots > 0,
            resolution > 0,
            resolution <= now,
            (slots - 1) * resolution <= u64::MAX,
        ensures
            p.wf(),
            p.connections().capacity() == capacity,
            p.connections().first_port() == first_port,
            p.connections().active_count() == 0,
            p.connections().client_index().is_empty(),
            p.connections().free_list().len() == capacity,
            p.handshake_timeout_cycles() == handshake_timeout,
            p.established_timeout_cycles() == established_timeout,
            p.selects_on_payload() == select_on_payload,
            p.timers().start_cycles() == now - resolution,
            p.timers().resolution() == resolution,
            p.timers().slot_count() == slots,
            p.timers().drained_advance() == 0,
    {
        Proxy {
            pool: ConnectionManager::new(capacity, first_port),
            wheel: TimerWheel::new(slots, resolution, 16, now),
            handshake_timeout,
            established_timeout,
            select_on_payload,
        }
    }

    /// The connection store.
    pub fn pool(&self) -> (r: &ConnectionManager)
        ensures
            *r == self.connections(),
    {
        &self.pool
    }

    /// Arms the deadline of handle `h` at `now + timeout`.
    fn arm(&mut self, h: usize, now: u64, timeout: u64)
        requires
            old(self).connections().wf(),
            old(self).timers().wf(),
            forall|g: int|
                #[trigger] old(self).connections().is_active(g) && g != h ==> old(self).is_filed(g),
        ensures
            final(self).wf(),
            old(self).same_clock(*final(self)),
            old(self).connections().is_active(h as int) ==> final(self).connections().records()[h as int].wheel_slot
                == old(self).timers().slot_of(deadline_after(now, timeout)),
            final(self).connections().is_active(h as int) ==> final(self).connections().records()[h as int].deadline == deadline_after(now, timeout),
            old(self).connections().is_active(h as int) ==> old(self).connections().updated_into(
                final(self).connections(),
                h as int,
                ProxyConnection {
                    deadline: deadline_after(now, timeout),
                    wheel_slot: final(self).connections().records()[h as int].wheel_slot,
                    ..old(self).connections().records()[h as int]
                },
            ),
            !old(self).connections().is_active(h as int) ==> final(self).connections() == old(self).connections(),
    {
        let d = deadline(now, timeout);
        let ghost before = *self;
        let slot = self.wheel.schedule(&d, h);
        self.pool.set_deadline(h, d, slot);
        proof {
            assert forall|g: int| #[trigger] self.connections().is_active(g) implies self.is_filed(g) by {
                if g != h {
                    assert(before.connections().is_active(g));
                    assert(before.is_filed(g));
                    let sg = before.connections().records()[g].wheel_slot as int;
                    if sg == slot as int {
                        assert(self.timers().pending()[sg] == before.timers().pending()[sg].push(h));
                        let i = choose|i: int| 0 <= i < before.timers().pending()[sg].len() && before.timers().pending()[sg][i] == g as usize;
                        assert(self.timers().pending()[sg][i] == g as usize);
                    }
                } else {
                    let ps = self.timers().pending()[slot as int];
                    assert(ps[ps.len() - 1] == h);
                }
            }
        }
    }

    /// Handles a segment on the client path, with payload `data`; `isn` is a
    /// fresh random sequence number for a SYN-ACK.
    ///
    /// A SYN gets a record (or finds its own) and is answered with the
    /// SYN-ACK, or with an RST when the pool is exhausted. An RST releases the
    /// connection and is passed on to the server. A FIN is passed on and may
    /// end the connection. Other segments complete the handshake, are
    /// buffered, or are forwarded translated once both sides are established;
    /// a segment that belongs to no connection is answered with an RST. A
    /// backend is requested as `requests_selection` says, and the handshake
    /// moments are stamped on the record.
    pub fn client_segment(&mut self, seg: &TcpHeader, data: &[u8], now: u64, isn: u32) -> (r: Vec<
        Output,
    >)
        requires
            old(self).wf(),
        ensures
            final(self).wf(),
            old(self).same_clock(*final(self)),
            final(self).connections().capacity() == old(self).connections().capacity(),
            ({
                let pool = old(self).connections();
                let k = tuple_key(tuple_of(*seg));
                let known = pool.client_index().contains_key(k);
                let h = pool.client_index()[k];
                let c = pool.records()[h as int];
                if has_flag(seg.flags, TCP_RST) {
                    &&& !known ==> r@ == Seq::<Output>::empty() && final(self).connections() == pool
                    &&& known ==> !final(self).connections().is_active(h as int)
                        && pool.released_into(final(self).connections(), h as int, c, ReleaseCause::ClientRst)
                        && r@ == (if c.s_state != TcpState::Listen {
                        seq![Output::ToServer(c2s_of(c, *seg))]
                    } else {
                        Seq::<Output>::empty()
                    })
                } else if has_flag(seg.flags, TCP_SYN) {
                    &&& (!known && pool.free_list().len() == 0) ==> r@ == seq![
                        Output::ToClient(reset_reply_of(*seg)),
                    ] && final(self).connections() == pool
                    &&& known ==> r@ == (match client_syn_reply(c, *seg, isn) {
                        Some(x) => seq![Output::ToClient(x)],
                        None => Seq::<Output>::empty(),
                    }) && pool.updated_into(
                        final(self).connections(),
                        h as int,
                        after_client_syn(c, *seg, isn),
                    )
                    &&& (!known && pool.free_list().len() > 0) ==> {
                        let g = pool.free_list().last();
                        &&& final(self).connections().free_list() == pool.free_list().drop_last()
                        &&& final(self).connections().client_index() == pool.client_index().insert(k, g)
                        &&& final(self).connections().active_flags() == pool.active_flags().update(g as int, true)
                        &&& final(self).connections().records() == pool.records().update(
                            g as int,
                            final(self).connections().records()[g as int],
                        )
                        &&& final(self).connections().is_active(g as int)
                        &&& final(self).connections().records()[g as int].client == tuple_of(*seg)
                        &&& final(self).connections().records()[g as int].c_state
                            == TcpState::SynReceived
                        &&& final(self).connections().records()[g as int].client_iss == seg.seq
                        &&& final(self).connections().records()[g as int].proxy_iss_c == isn
                        &&& final(self).connections().records()[g as int].stamps.syn_received == now
                        &&& final(self).connections().records()[g as int].deadline
                            == deadline_after(now, old(self).handshake_timeout_cycles())
                        &&& final(self).connections().records()[g as int].wheel_slot
                            == old(self).timers().slot_of(
                            final(self).connections().records()[g as int].deadline,
                        )
                        &&& r@ == seq![
                            Output::ToClient(
                                crate::connection::syn_ack_of(
                                    final(self).connections().records()[g as int],
                                ),
                            ),
                        ]
                    }
                } else if !known {
                    &&& final(self).connections() == pool
                    &&& r@ == (if has_flag(seg.flags, TCP_FIN) {
                        Seq::<Output>::empty()
                    } else {
                        seq![Output::ToClient(reset_reply_of(*seg))]
                    })
                } else if has_flag(seg.flags, TCP_FIN) {
                    &&& r@ == (if forwards_client_fin(c) {
                        seq![Output::ToServer(c2s_of(c, *seg))]
                    } else {
                        Seq::<Output>::empty()
                    })
                    &&& fin_cause_after_client_fin(c) matches Some(cause) ==> !final(self).connections().is_active(h as int) && final(self).connections().records()[h as int].release_cause
                        == Some(cause) && pool.released_into(
                        final(self).connections(),
                        h as int,
                        after_client_fin(c),
                        cause,
                    )
                    &&& fin_cause_after_client_fin(c) is None ==> pool.updated_into(
                        final(self).connections(),
                        h as int,
                        after_client_fin(c),
                    )
                } else if c.c_state == TcpState::Established && c.s_state == TcpState::Established {
                    &&& r@ == seq![Output::ToServer(c2s_of(c, *seg))]
                    &&& final(self).connections().records()[h as int].deadline == deadline_after(
                        now,
                        old(self).established_timeout_cycles(),
                    )
                    &&& pool.updated_into(
                        final(self).connections(),
                        h as int,
                        ProxyConnection {
                            deadline: deadline_after(now, old(self).established_timeout_cycles()),
                            wheel_slot: final(self).connections().records()[h as int].wheel_slot,
                            ..c
                        },
                    )
                } else {
                    let n = final(self).connections().records()[h as int];
                    &&& r@ == (if requests_selection(
                        old(self).selects_on_payload(),
                        c,
                        n,
                        completes_client_handshake(c, *seg, data@),
                    ) {
                        seq![Output::SelectServer(h)]
                    } else {
                        Seq::<Output>::empty()
                    })
                    &&& pool.updated_into(final(self).connections(), h as int, n)
                    &&& client_ack_post(c, ProxyConnection { stamps: c.stamps, ..n }, *seg, data@)
                    &&& n.stamps == (if completes_client_handshake(c, *seg, data@) {
                        Stamps { ack_received: now, ..c.stamps }
                    } else {
                        c.stamps
                    })
                }
            }),
    {
        let tuple = ClientTuple::of_segment(seg);
        let ghost before = *self;
        if seg.flags & TCP_RST == TCP_RST {
            let r = match self.pool.get_by_client(&tuple) {
                Some(h) => self.pool.client_rst(h, seg),
                None => None,
            };
            proof {
                lemma_still_filed(before, *self, -1);
            }
            return match r {
                Some(x) => one(Output::ToServer(x)),
                None => none(),
            };
        }
        if seg.flags & TCP_SYN == TCP_SYN {
            return match self.pool.get_or_allocate_client(&tuple) {
                Err(_) => one(Output::ToClient(reset_reply(seg))),
                Ok((h, is_new)) => {
                    let reply = self.pool.client_syn(h, seg, isn);
                    proof {
                        lemma_still_filed(before, *self, if is_new { h as int } else { -1 });
                    }
                    if is_new {
                        let mut st = self.pool.conn(h).stamps;
                        st.syn_received = now;
                        let ghost mid = *self;
                        self.pool.set_stamps(h, st);
                        proof {
                            lemma_still_filed(mid, *self, h as int);
                        }
                        let t = self.handshake_timeout;
                        self.arm(h, now, t);
                    }
                    match reply {
                        Some(x) => one(Output::ToClient(x)),
                        None => none(),
                    }
                },
            };
        }
        let h = match self.pool.get_by_client(&tuple) {
            Some(h) => h,
            None => {
                return if seg.flags & TCP_FIN != TCP_FIN {
                    one(Output::ToClient(reset_reply(seg)))
                } else {
                    none()
                };
            },
        };
        if seg.flags & TCP_FIN == TCP_FIN {
            let (fin, _cause) = self.pool.client_fin(h, seg);
            proof {
                lemma_still_filed(before, *self, -1);
            }
            return match fin {
                Some(x) => one(Output::ToServer(x)),
                None => none(),
            };
        }
        let c_state = self.pool.conn(h).c_state;
        let s_state = self.pool.conn(h).s_state;
        if c_state == TcpState::Established && s_state == TcpState::Established {
            let x = self.pool.conn(h).translate_c2s(seg);
            let t = self.established_timeout;
            self.arm(h, now, t);
            return one(Output::ToServer(x));
        }
        let had_payload = self.pool.conn(h).payload.len() > 0;
        let completes = self.pool.client_data(h, seg, data);
        if completes {
            let mut st = self.pool.conn(h).stamps;
            st.ack_received = now;
            self.pool.set_stamps(h, st);
        }
        proof {
            assert(self.pool.records() =~= before.pool.records().update(h as int, self.pool.records()[h as int]));
            lemma_still_filed(before, *self, -1);
        }
        let selected = if self.select_on_payload {
            !had_payload && self.pool.conn(h).payload.len() > 0 && self.pool.conn(h).c_state
                == TcpState::Established && self.pool.conn(h).s_state == TcpState::Listen
        } else {
            completes
        };
        if selected {
            one(Output::SelectServer(h))
        } else {
            none()
        }
    }

    /// Connects handle `h`, whose client handshake completed, to the backend
    /// that server selection chose, with `isn` as the proxy's server-side
    /// sequence number. Without a backend the connection is released as an
    /// abort and the client gets an RST.
    pub fn connect(&mut self, h: usize, choice: Option<ServerId>, isn: u32, now: u64) -> (r: Vec<
        Output,
    >)
        requires
            old(self).wf(),
        ensures
            final(self).wf(),
            old(self).same_clock(*final(self)),
            final(self).connections().capacity() == old(self).connections().capacity(),
            ({
                let pool = old(self).connections();
                let c = pool.records()[h as int];
                &&& !pool.is_active(h as int) ==> r@ == Seq::<Output>::empty()
                    && final(self).connections() == pool
                &&& (pool.is_active(h as int) && choice is None) ==> r@ == seq![
                    Output::ToClient(client_reset_of(c)),
                ] && pool.released_into(
                    final(self).connections(),
                    h as int,
                    c,
                    ReleaseCause::ProxyAbort,
                )
                &&& (pool.is_active(h as int) && choice is Some) ==> r@ == (
                match crate::connection::open_server_reply(c, choice->0, isn) {
                    Some(x) => seq![Output::ToServer(x)],
                    None => Seq::<Output>::empty(),
                })
                &&& (pool.is_active(h as int) && choice is Some
                    && crate::connection::can_open_server(c)) ==> pool.updated_into(
                    final(self).connections(),
                    h as int,
                    ProxyConnection {
                        stamps: Stamps { syn_sent: now, ..c.stamps },
                        deadline: deadline_after(now, old(self).handshake_timeout_cycles()),
                        wheel_slot: final(self).connections().records()[h as int].wheel_slot,
                        ..after_open_server(c, choice->0, isn)
                    },
                )
                &&& (pool.is_active(h as int) && choice is Some
                    && !crate::connection::can_open_server(c)) ==> pool.updated_into(
                    final(self).connections(),
                    h as int,
                    c,
                )
            }),
    {
        let ghost before = *self;
        match choice {
            None => {
                let r = self.pool.abort(h, ReleaseCause::ProxyAbort);
                proof {
                    lemma_still_filed(before, *self, -1);
                }
                match r {
                    Some(x) => one(Output::ToClient(x)),
                    None => none(),
                }
            },
            Some(server) => {
                let r = self.pool.open_server(h, server, isn);
                if r.is_some() {
                    let mut st = self.pool.conn(h).stamps;
                    st.syn_sent = now;
                    self.pool.set_stamps(h, st);
                }
                proof {
                    lemma_still_filed(before, *self, -1);
                }
                match r {
                    Some(x) => {
                        let t = self.handshake_timeout;
                        self.arm(h, now, t);
                        proof {
                            assert(self.pool.records() =~= before.pool.records().update(h as int, self.pool.records()[h as int]));
                        }
                        one(Output::ToServer(x))
                    },
                    None => none(),
                }
            },
        }
    }

    /// Handles a segment on the server path, with payload `data`.
    ///
    /// The segment is matched to its connection by the ephemeral port it is
    /// addressed to; one that matches none is answered with an RST. The
    /// server's SYN-ACK is acknowledged and releases the buffered payload; an
    /// RST ends the connection and reaches the client translated; a FIN is
    /// passed on; data is forwarded translated once both sides are
    /// established.
    pub fn server_segment(&mut self, seg: &TcpHeader, data: &[u8], now: u64) -> (r: Vec<Output>)
        requires
            old(self).wf(),
        ensures
            final(self).wf(),
            old(self).same_clock(*final(self)),
            final(self).connections().capacity() == old(self).connections().capacity(),
            ({
                let pool = old(self).connections();
                let known = pool.port_index().contains_key(seg.dst_port);
                let h = pool.port_index()[seg.dst_port];
                let c = pool.records()[h as int];
                &&& !known ==> final(self).connections() == pool && r@ == (if has_flag(
                    seg.flags,
                    TCP_RST,
                ) {
                    Seq::<Output>::empty()
                } else {
                    seq![Output::ToServer(reset_reply_of(*seg))]
                })
                &&& (known && has_flag(seg.flags, TCP_RST)) ==> {
                    &&& r@ == seq![
                        Output::ToClient(
                            if c.s_state == TcpState::SynSent {
                                client_reset_of(c)
                            } else {
                                s2c_of(c, *seg)
                            },
                        ),
                    ]
                    &&& pool.released_into(
                        final(self).connections(),
                        h as int,
                        c,
                        crate::connection::server_rst_cause(c),
                    )
                }
                &&& (known && !has_flag(seg.flags, TCP_RST) && has_flag(seg.flags, TCP_SYN)
                    && crate::connection::answers_server_syn(c, *seg)) ==> {
                    let n = crate::connection::after_server_syn_ack(c, *seg);
                    &&& r@ == (if c.payload@.len() > 0 {
                        seq![
                            Output::ToServer(crate::connection::server_ack_of(n)),
                            Output::ToServer(c2s_of(n, crate::connection::first_data_of(n))),
                        ]
                    } else {
                        seq![Output::ToServer(crate::connection::server_ack_of(n))]
                    })
                    &&& final(self).connections().records()[h as int].s_state
                        == TcpState::Established
                    &&& pool.updated_into(
                        final(self).connections(),
                        h as int,
                        ProxyConnection {
                            stamps: Stamps { ack_sent: now, ..c.stamps },
                            deadline: deadline_after(now, old(self).established_timeout_cycles()),
                            wheel_slot: final(self).connections().records()[h as int].wheel_slot,
                            ..n
                        },
                    )
                }
                &&& (known && !has_flag(seg.flags, TCP_RST) && has_flag(seg.flags, TCP_SYN)
                    && !crate::connection::answers_server_syn(c, *seg)) ==> r@ == Seq::<
                    Output,
                >::empty() && final(self).connections().records() =~= pool.records()
                &&& (known && !has_flag(seg.flags, TCP_RST) && !has_flag(seg.flags, TCP_SYN)
                    && has_flag(seg.flags, TCP_FIN)) ==> r@ == (if forwards_server_fin(c) {
                    seq![Output::ToClient(s2c_of(c, *seg))]
                } else {
                    Seq::<Output>::empty()
                })
                &&& (known && !has_flag(seg.flags, TCP_RST) && !has_flag(seg.flags, TCP_SYN)
                    && has_flag(seg.flags, TCP_FIN) && fin_cause_after_server_fin(c) is Some) ==> !final(self).connections().is_active(
                    h as int,
                ) && final(self).connections().records()[h as int].release_cause
                    == fin_cause_after_server_fin(c) && pool.released_into(
                    final(self).connections(),
                    h as int,
                    after_server_fin(c),
                    fin_cause_after_server_fin(c)->0,
                )
                &&& (known && !has_flag(seg.flags, TCP_RST) && !has_flag(seg.flags, TCP_SYN)
                    && has_flag(seg.flags, TCP_FIN) && fin_cause_after_server_fin(c) is None) ==> pool.updated_into(
                    final(self).connections(),
                    h as int,
                    after_server_fin(c),
                )
                &&& (known && !has_flag(seg.flags, TCP_RST) && !has_flag(seg.flags, TCP_SYN)
                    && !has_flag(seg.flags, TCP_FIN)) ==> r@ == (if c.c_state
                    == TcpState::Established && c.s_state == TcpState::Established {
                    seq![Output::ToClient(s2c_of(c, *seg))]
                } else {
                    Seq::<Output>::empty()
                })
                &&& (known && !has_flag(seg.flags, TCP_RST) && !has_flag(seg.flags, TCP_SYN)
                    && !has_flag(seg.flags, TCP_FIN) && c.c_state == TcpState::Established
                    && c.s_state == TcpState::Established) ==> pool.updated_into(
                    final(self).connections(),
                    h as int,
                    ProxyConnection {
                        server_expects: if has_flag(seg.flags, TCP_ACK) {
                            seg.ack
                        } else {
                            c.server_expects
                        },
                        deadline: deadline_after(now, old(self).established_timeout_cycles()),
                        wheel_slot: final(self).connections().records()[h as int].wheel_slot,
                        ..c
                    },
                )
            }),
    {
        let h = match self.pool.get_by_proxy_port(seg.dst_port) {
            Some(h) => h,
            None => {
                return if seg.flags & TCP_RST == TCP_RST {
                    none()
                } else {
                    one(Output::ToServer(reset_reply(seg)))
                };
            },
        };
        let ghost before = *self;
        if seg.flags & TCP_RST == TCP_RST {
            let r = self.pool.server_rst(h, seg);
            proof {
                lemma_still_filed(before, *self, -1);
            }
            return match r {
                Some(x) => one(Output::ToClient(x)),
                None => none(),
            };
        }
        if seg.flags & TCP_SYN == TCP_SYN {
            let r = self.pool.server_syn_ack(h, seg);
            if r.is_some() {
                let mut st = self.pool.conn(h).stamps;
                st.ack_sent = now;
                self.pool.set_stamps(h, st);
            }
            proof {
                lemma_still_filed(before, *self, -1);
            }
            return match r {
                Some(ack) => {
                    let mut out = one(Output::ToServer(ack));
                    if self.pool.conn(h).payload.len() > 0 {
                        let x = self.pool.conn(h).buffered_segment();
                        out.push(Output::ToServer(x));
                    }
                    let t = self.established_timeout;
                    self.arm(h, now, t);
                    proof {
                        assert(self.pool.records() =~= before.pool.records().update(h as int, self.pool.records()[h as int]));
                    }
                    out
                },
                None => none(),
            };
        }
        if seg.flags & TCP_FIN == TCP_FIN {
            let (fin, _cause) = self.pool.server_fin(h, seg);
            proof {
                lemma_still_filed(before, *self, -1);
            }
            return match fin {
                Some(x) => one(Output::ToClient(x)),
                None => none(),
            };
        }
        let c_state = self.pool.conn(h).c_state;
        let s_state = self.pool.conn(h).s_state;
        if c_state == TcpState::Established && s_state == TcpState::Established {
            let x = self.pool.conn(h).translate_s2c(seg);
            if seg.flags & TCP_ACK == TCP_ACK {
                self.pool.note_server_ack(h, seg.ack);
            }
            proof {
                lemma_still_filed(before, *self, -1);
            }
            let t = self.established_timeout;
            self.arm(h, now, t);
            proof {
                assert(self.pool.records() =~= before.pool.records().update(h as int, self.pool.records()[h as int]));
            }
            one(Output::ToClient(x))
        } else {
            none()
        }
    }

    /// Whether handle `h` comes due in a tick at `now`: it is active, its
    /// deadline lies less than one resolution after `now`, and its slot is
    /// drained at one of the advances this tick passes.
    pub open spec fn comes_due(&self, h: int, now: u64) -> bool {
        let c = self.connections().records()[h];
        &&& self.connections().is_active(h)
        &&& c.deadline < now + self.timers().resolution()
        &&& exists|a: int|
            self.timers().drained_advance() < a <= self.timers().advance_at(now)
                && #[trigger] self.timers().slot_for_advance(a) == c.wheel_slot
    }

    /// Runs the timer wheel up to cycle count `now`. A slot comes due up to
    /// one resolution before the deadlines in it, so a connection counts as
    /// expired when its deadline lies less than one resolution after `now`.
    /// Every connection that `comes_due` is released (see
    /// `ConnectionManager::expire`): its tuple leaves the client index and
    /// its handle goes back on the free list; the resets are returned. No
    /// other connection is released. An entry whose connection is not yet
    /// due, and is still filed in that slot (a deadline more than one
    /// rotation ahead), is filed again; entries left behind by a later
    /// deadline or a release are dropped.
    pub fn tick(&mut self, now: u64) -> (r: Vec<Output>)
        requires
            old(self).wf(),
        ensures
            final(self).wf(),
            final(self).connections().capacity() == old(self).connections().capacity(),
            forall|h: int|
                #![trigger final(self).connections().is_active(h)]
                old(self).comes_due(h, now) ==> !final(self).connections().is_active(h),
            forall|h: int|
                #![trigger final(self).connections().records()[h]]
                #![trigger final(self).connections().is_active(h)]
                old(self).connections().is_active(h) && !final(self).connections().is_active(h) ==> {
                    let c = old(self).connections().records()[h];
                    &&& c.deadline < now + old(self).timers().resolution()
                    &&& final(self).connections().records()[h].release_cause == Some(
                        timeout_cause(c),
                    )
                    &&& !final(self).connections().client_index().contains_key(tuple_key(c.client))
                    &&& final(self).connections().free_list().contains(h as usize)
                },
            forall|h: int|
                #![trigger final(self).connections().records()[h]]
                #![trigger final(self).connections().is_active(h)]
                0 <= h < old(self).connections().capacity() && !old(self).connections().is_active(h)
                    ==> !final(self).connections().is_active(h)
                    && final(self).connections().records()[h] == old(self).connections().records()[h],
            forall|i: int| 0 <= i < r@.len() ==> is_reset(#[trigger] r@[i]),
    {
        let mut out: Vec<Output> = Vec::new();
        let ghost start = self.pool;
        let ghost p0 = *self;
        let ghost adv = self.wheel.advance_at(now);
        let res = self.wheel.get_resolution();
        let limit = deadline(now, res - 1);
        loop
            invariant
                self.wf(),
                self.pool.capacity() == start.capacity(),
                start.capacity() == old(self).connections().capacity(),
                start == old(self).pool,
                p0 == *old(self),
                res == old(self).timers().resolution(),
                res > 0,
                limit == deadline_after(now, (res - 1) as u64),
                self.timers().start_cycles() == p0.timers().start_cycles(),
                self.timers().resolution() == p0.timers().resolution(),
                self.timers().slot_count() == p0.timers().slot_count(),
                adv == self.timers().advance_at(now),
                forall|h: int|
                    #![trigger self.pool.is_active(h)]
                    p0.comes_due(h, now) && self.pool.is_active(h) ==> exists|a: int|
                        self.timers().drained_advance() < a <= adv
                            && #[trigger] p0.timers().slot_for_advance(a)
                            == self.pool.records()[h].wheel_slot,
                forall|h: int|
                    #![trigger self.pool.records()[h]]
                    #![trigger self.pool.is_active(h)]
                    start.is_active(h) && !self.pool.is_active(h) ==> start.records()[h].deadline
                        <= limit && self.pool.records()[h].release_cause == Some(
                        timeout_cause(start.records()[h]),
                    ) && !self.pool.client_index().contains_key(tuple_key(start.records()[h].client))
                        && self.pool.free_list().contains(h as usize),
                forall|h: int|
                    #![trigger self.pool.records()[h]]
                    #![trigger self.pool.is_active(h)]
                    start.is_active(h) && self.pool.is_active(h) ==> self.pool.records()[h].deadline
                        == start.records()[h].deadline && self.pool.records()[h].s_state
                        == start.records()[h].s_state && self.pool.records()[h].client
                        == start.records()[h].client,
                forall|h: int|
                    #![trigger self.pool.records()[h]]
                    #![trigger self.pool.is_active(h)]
                    0 <= h < start.capacity() && !start.is_active(h) ==> !self.pool.is_active(h)
                        && self.pool.records()[h] == start.records()[h],
                forall|i: int| 0 <= i < out@.len() ==> is_reset(#[trigger] out@[i]),
            ensures
                self.wf(),
                self.pool.capacity() == start.capacity(),
                forall|h: int|
                    #![trigger self.pool.is_active(h)]
                    p0.comes_due(h, now) ==> !self.pool.is_active(h),
                forall|h: int|
                    #![trigger self.pool.records()[h]]
                    #![trigger self.pool.is_active(h)]
                    start.is_active(h) && !self.pool.is_active(h) ==> start.records()[h].deadline
                        <= limit && self.pool.records()[h].release_cause == Some(
                        timeout_cause(start.records()[h]),
                    ) && !self.pool.client_index().contains_key(tuple_key(start.records()[h].client))
                        && self.pool.free_list().contains(h as usize),
                forall|h: int|
                    #![trigger self.pool.records()[h]]
                    #![trigger self.pool.is_active(h)]
                    0 <= h < start.capacity() && !start.is_active(h) ==> !self.pool.is_active(h)
                        && self.pool.records()[h] == start.records()[h],
                forall|i: int| 0 <= i < out@.len() ==> is_reset(#[trigger] out@[i]),
            decreases self.wheel.advance_at(now) - self.wheel.drained_advance(),
        {
            let ghost pre = *self;
            let (due, more) = self.wheel.tick(&now);
            proof {
                // a due connection still active is either in the drained bag or still ahead
                assert forall|h: int|
                    #![trigger self.pool.is_active(h)]
                    p0.comes_due(h, now) && self.pool.is_active(h) implies due is Some && (
                        self.pool.records()[h].wheel_slot == p0.timers().slot_for_advance(
                            self.timers().drained_advance() as int,
                        ) || exists|b: int|
                            self.timers().drained_advance() < b <= adv
                                && #[trigger] p0.timers().slot_for_advance(b)
                                == self.pool.records()[h].wheel_slot) by {
                    let a = choose|a: int|
                        pre.timers().drained_advance() < a <= adv
                            && #[trigger] p0.timers().slot_for_advance(a)
                            == pre.pool.records()[h].wheel_slot;
                    assert(pre.is_filed(h));
                    let ws = pre.pool.records()[h].wheel_slot as int;
                    assert(pre.timers().pending()[ws].contains(h as usize));
                    assert(pre.timers().pending()[ws].len() > 0);
                    lemma_due_slot_stays_due(pre.wheel, now, self.wheel, due, more, a);
                    if !(self.pool.records()[h].wheel_slot == self.timers().slot_for_advance(
                        self.timers().drained_advance() as int,
                    )) {
                        let b = choose|b: int|
                            self.timers().drained_advance() < b <= self.timers().advance_at(now)
                                && #[trigger] self.timers().slot_for_advance(b)
                                == pre.timers().slot_for_advance(a);
                        assert(p0.timers().slot_for_advance(b) == self.pool.records()[h].wheel_slot);
                    }
                }
            }
            match due {
                None => {
                    break;
                },
                Some(handles) => {
                    let drained_slot = self.wheel.last_drained_slot();
                    let ghost la = self.wheel.drained_advance();
                    proof {
                        assert forall|g: int| #[trigger] self.connections().is_active(g) implies self.is_filed(g) || (
                            self.pool.records()[g].wheel_slot == drained_slot as u64
                                && handles@.subrange(0, handles@.len() as int).contains(g as usize)) by {
                            assert(pre.connections().is_active(g));
                            assert(pre.is_filed(g));
                            assert(handles@.subrange(0, handles@.len() as int) =~= handles@);
                        }
                        assert forall|h: int|
                            #![trigger self.pool.is_active(h)]
                            p0.comes_due(h, now) && self.pool.is_active(h) implies (exists|a: int|
                                la < a <= adv && #[trigger] p0.timers().slot_for_advance(a)
                                    == self.pool.records()[h].wheel_slot) || (
                                self.pool.records()[h].wheel_slot == drained_slot as u64
                                    && handles@.subrange(0, handles@.len() as int).contains(h as usize)) by {
                            assert(pre.is_filed(h));
                            assert(handles@.subrange(0, handles@.len() as int) =~= handles@);
                        }
                    }
                    let mut j: usize = 0;
                    while j < handles.len()
                        invariant
                            self.connections().wf(),
                            self.timers().wf(),
                            forall|g: int|
                                #[trigger] self.connections().is_active(g) ==> self.is_filed(g) || (
                                self.pool.records()[g].wheel_slot == drained_slot as u64
                                    && handles@.subrange(j as int, handles@.len() as int).contains(
                                    g as usize,
                                )),
                            forall|h: int|
                                #![trigger self.pool.is_active(h)]
                                p0.comes_due(h, now) && self.pool.is_active(h) ==> (exists|a: int|
                                    la < a <= adv && #[trigger] p0.timers().slot_for_advance(a)
                                        == self.pool.records()[h].wheel_slot) || (
                                    self.pool.records()[h].wheel_slot == drained_slot as u64
                                        && handles@.subrange(j as int, handles@.len() as int).contains(
                                        h as usize,
                                    )),
                            drained_slot < self.timers().slot_count(),
                            j <= handles@.len(),
                            self.pool.capacity() == start.capacity(),
                            res > 0,
                            limit == deadline_after(now, (res - 1) as u64),
                            la == self.wheel.drained_advance(),
                            adv == self.wheel.advance_at(now),
                            self.timers().start_cycles() == p0.timers().start_cycles(),
                            self.timers().resolution() == p0.timers().resolution(),
                            self.timers().slot_count() == p0.timers().slot_count(),
                            la <= adv,
                            (la < adv) == more,
                            start == p0.pool,
                            res == p0.timers().resolution(),
                            forall|h: int|
                                #![trigger self.pool.records()[h]]
                                #![trigger self.pool.is_active(h)]
                                start.is_active(h) && !self.pool.is_active(h)
                                    ==> start.records()[h].deadline <= limit
                                    && self.pool.records()[h].release_cause == Some(
                                    timeout_cause(start.records()[h]),
                                ) && !self.pool.client_index().contains_key(
                                    tuple_key(start.records()[h].client),
                                ) && self.pool.free_list().contains(h as usize),
                            forall|h: int|
                                #![trigger self.pool.records()[h]]
                                #![trigger self.pool.is_active(h)]
                                start.is_active(h) && self.pool.is_active(h)
                                    ==> self.pool.records()[h].deadline
                                    == start.records()[h].deadline
                                    && self.pool.records()[h].s_state
                                    == start.records()[h].s_state
                                    && self.pool.records()[h].client
                                    == start.records()[h].client,
                            forall|h: int|
                                #![trigger self.pool.records()[h]]
                                #![trigger self.pool.is_active(h)]
                                0 <= h < start.capacity() && !start.is_active(h)
                                    ==> !self.pool.is_active(h) && self.pool.records()[h]
                                    == start.records()[h],
                            forall|i: int| 0 <= i < out@.len() ==> is_reset(#[trigger] out@[i]),
                        decreases handles@.len() - j,
                    {
                        let h = handles[j];
                        let ghost before = self.pool;
                        let ghost before_p = *self;
                        match self.pool.expire(h, limit) {
                            Some((x, y)) => {
                                out.push(Output::ToClient(x));
                                if let Some(z) = y {
                                    out.push(Output::ToServer(z));
                                }
                                assert(!self.connections().is_active(h as int));
                            },
                            None => {
                                if self.pool.is_active_handle(h) && self.pool.conn(h).wheel_slot
                                    == drained_slot as u64 {
                                    let d = self.pool.conn(h).deadline;
                                    let ghost w1 = self.wheel;
                                    let slot = self.wheel.schedule(&d, h);
                                    self.pool.set_deadline(h, d, slot);
                                    proof {
                                        let ps = self.timers().pending()[slot as int];
                                        assert(ps == w1.pending()[slot as int].push(h));
                                        assert(ps[ps.len() - 1] == h);
                                        assert(self.pool.records()[h as int].wheel_slot == slot);
                                        assert(self.is_filed(h as int));
                                    }
                                } else {
                                    assert(self.pool == before && self.wheel == before_p.wheel);
                                }
                            },
                        }
                        proof {
                            let rest = handles@.subrange(j as int, handles@.len() as int);
                            assert(rest[0] == h);
                            assert(rest.drop_first() =~= handles@.subrange(j + 1, handles@.len() as int));
                            assert forall|g: int, sl: int|
                                0 <= sl < before_p.timers().slot_count() && #[trigger] before_p.timers().pending()[sl].contains(g as usize) implies self.timers().pending()[sl].contains(g as usize) by {
                                if !(self.timers().pending() =~= before_p.timers().pending()) {
                                    let i = choose|i: int| 0 <= i < before_p.timers().pending()[sl].len() && before_p.timers().pending()[sl][i] == g as usize;
                                    assert(self.timers().pending()[sl][i] == g as usize);
                                }
                            }
                            lemma_tick_step_filed(before_p, *self, h as int, drained_slot as u64, rest);
                            if p0.comes_due(h as int, now) && before.is_active(h as int) {
                                assert(start.is_active(h as int));
                                assert(before.records()[h as int].deadline == start.records()[h as int].deadline);
                                assert(before.records()[h as int].deadline <= limit);
                            }
                            lemma_tick_step_due(p0, now, before, self.pool, p0.wheel, h as int, drained_slot as u64, rest, la as int, adv);
                            assert forall|g: int|
                                0 <= g < start.capacity() && !start.is_active(g) implies !self.pool.is_active(g)
                                && self.pool.records()[g] == start.records()[g] by {
                                assert(!before.is_active(g) && before.records()[g] == start.records()[g]);
                            }
                            assert forall|g: int|
                                start.is_active(g) && self.pool.is_active(g) implies self.pool.records()[g].deadline
                                == start.records()[g].deadline && self.pool.records()[g].s_state
                                == start.records()[g].s_state && self.pool.records()[g].client
                                == start.records()[g].client by {
                                assert(before.is_active(g));
                            }
                            assert forall|g: int|
                                #![trigger self.pool.is_active(g)]
                                start.is_active(g) && !self.pool.is_active(g) implies !self.pool.client_index().contains_key(
                                    tuple_key(start.records()[g].client),
                                ) && self.pool.free_list().contains(g as usize) by {
                                if before.is_active(g) {
                                    assert(g == h as int);
                                    assert(self.pool.free_list()[self.pool.free_list().len() - 1] == h);
                                } else {
                                    let i = choose|i: int| 0 <= i < before.free_list().len() && before.free_list()[i] == g as usize;
                                    assert(self.pool.free_list()[i] == g as usize);
                                }
                            }
                        }
                        j = j + 1;
                    }
                    proof {
                        assert(handles@.subrange(handles@.len() as int, handles@.len() as int).len() == 0);
                        assert forall|g: int| #[trigger] self.connections().is_active(g) implies self.is_filed(g) by {
                            assert(handles@.subrange(handles@.len() as int, handles@.len() as int).len() == 0);
                        }
                    }
                    if !more {
                        break;
                    }
                },
            }
        }
        out
    }
}

/// Every active connection waits in the wheel, in the slot its record names,
/// and that slot comes due within the next rotation of the wheel. By the
/// contract of `Proxy::tick`, a tick passing that advance releases the
/// connection once its deadline is within one resolution of the tick
/// (`comes_due`), with the single cause its release stamps.
pub proof fn lemma_active_connection_is_filed(p: Proxy, h: int)
    requires
        p.wf(),
        p.connections().is_active(h),
    ensures
        p.timers().pending()[p.connections().records()[h].wheel_slot as int].contains(h as usize),
        exists|a: int|
            p.timers().drained_advance() < a <= p.timers().drained_advance() + p.timers().slot_count()
                && #[trigger] p.timers().slot_for_advance(a) == p.connections().records()[h].wheel_slot,
{
    let w = p.timers();
    let m = w.slot_count() as int;
    let la = w.drained_advance() as int;
    let slot = p.connections().records()[h].wheel_slot as int;
    let a = la + 1 + (slot - la) % m;
    vstd::arithmetic::div_mod::lemma_mod_bound(slot - la, m);
    vstd::arithmetic::div_mod::lemma_add_mod_noop_right(la, slot - la, m);
    vstd::arithmetic::div_mod::lemma_small_mod(slot as nat, m as nat);
    assert(w.slot_for_advance(a) == slot);
}

/// One handle `x`, first of the rest `rest` of a drained bag, is dealt with.
/// A due connection still active afterwards is still due at a later advance,
/// or still waits in the rest of the bag.
proof fn lemma_tick_step_due(
    p0: Proxy,
    now: u64,
    before: ConnectionManager,
    after: ConnectionManager,
    w: TimerWheel<usize>,
    x: int,
    ds: u64,
    rest: Seq<usize>,
    la: int,
    adv: int,
)
    requires
        rest.len() > 0,
        rest[0] == x as usize,
        0 <= x <= usize::MAX,
        after.capacity() <= 0x1_0000,
        forall|g: int|
            #![trigger before.is_active(g)]
            p0.comes_due(g, now) && before.is_active(g) ==> (exists|a: int|
                la < a <= adv && #[trigger] w.slot_for_advance(a) == before.records()[g].wheel_slot) || (
                before.records()[g].wheel_slot == ds && rest.contains(g as usize)),
        forall|g: int| #![trigger after.is_active(g)] after.is_active(g) ==> before.is_active(g),
        forall|g: int|
            #![trigger after.is_active(g)]
            after.is_active(g) && g != x ==> after.records()[g] == before.records()[g],
        after.is_active(x) ==> !p0.comes_due(x, now),
    ensures
        forall|g: int|
            #![trigger after.is_active(g)]
            p0.comes_due(g, now) && after.is_active(g) ==> (exists|a: int|
                la < a <= adv && #[trigger] w.slot_for_advance(a) == after.records()[g].wheel_slot) || (
                after.records()[g].wheel_slot == ds && rest.drop_first().contains(g as usize)),
{
    assert forall|g: int|
        #![trigger after.is_active(g)]
        p0.comes_due(g, now) && after.is_active(g) implies (exists|a: int|
            la < a <= adv && #[trigger] w.slot_for_advance(a) == after.records()[g].wheel_slot) || (
            after.records()[g].wheel_slot == ds && rest.drop_first().contains(g as usize)) by {
        assert(before.is_active(g));
        assert(g != x);
        if !(exists|a: int|
            la < a <= adv && #[trigger] w.slot_for_advance(a) == before.records()[g].wheel_slot) {
            let i = choose|i: int| 0 <= i < rest.len() && rest[i] == g as usize;
            assert(0 <= g < 0x1_0000);
            assert(i != 0);
            assert(rest.drop_first()[i - 1] == g as usize);
        }
    }
}

/// One handle `x`, first of the rest `rest` of a drained bag, is dealt with:
/// released, filed anew, or left as it was. Every active handle is still
/// filed, or still waits in the rest of the bag.
proof fn lemma_tick_step_filed(p: Proxy, q: Proxy, x: int, ds: u64, rest: Seq<usize>)
    requires
        rest.len() > 0,
        rest[0] == x as usize,
        0 <= x <= usize::MAX,
        q.connections().capacity() <= 0x1_0000,
        forall|g: int|
            #[trigger] p.connections().is_active(g) ==> p.is_filed(g) || (
            p.connections().records()[g].wheel_slot == ds && rest.contains(g as usize)),
        forall|g: int|
            #![trigger q.connections().is_active(g)]
            q.connections().is_active(g) ==> p.connections().is_active(g),
        forall|g: int|
            #![trigger q.connections().is_active(g)]
            q.connections().is_active(g) && g != x ==> q.connections().records()[g].wheel_slot
                == p.connections().records()[g].wheel_slot,
        q.timers().slot_count() == p.timers().slot_count(),
        forall|g: int, sl: int|
            0 <= sl < p.timers().slot_count() && #[trigger] p.timers().pending()[sl].contains(g as usize)
                ==> q.timers().pending()[sl].contains(g as usize),
        q.connections().is_active(x) ==> q.is_filed(x) || (p.connections().records()[x].wheel_slot
            != ds && q.connections().records()[x].wheel_slot
            == p.connections().records()[x].wheel_slot),
    ensures
        forall|g: int|
            #[trigger] q.connections().is_active(g) ==> q.is_filed(g) || (
            q.connections().records()[g].wheel_slot == ds && rest.drop_first().contains(g as usize)),
{
    assert forall|g: int| #[trigger] q.connections().is_active(g) implies q.is_filed(g) || (
        q.connections().records()[g].wheel_slot == ds && rest.drop_first().contains(g as usize)) by {
        assert(p.connections().is_active(g));
        let sg = p.connections().records()[g].wheel_slot as int;
        if g != x {
            if p.is_filed(g) {
                assert(p.timers().pending()[sg].contains(g as usize));
            } else {
                let i = choose|i: int| 0 <= i < rest.len() && rest[i] == g as usize;
                assert(i != 0);
                assert(rest.drop_first()[i - 1] == g as usize);
            }
        } else if !q.is_filed(g) {
            assert(p.is_filed(g));
            assert(p.timers().pending()[sg].contains(g as usize));
        }
    }
}

/// Filing of every handle but `x` survives a step that leaves the wheel
/// alone, activates no handle but `x`, and keeps the slot of every handle
/// that stays active.
proof fn lemma_still_filed(p: Proxy, q: Proxy, x: int)
    requires
        forall|h: int| #[trigger] p.connections().is_active(h) && h != x ==> p.is_filed(h),
        q.timers() == p.timers(),
        forall|h: int|
            #![trigger q.connections().is_active(h)]
            q.connections().is_active(h) && h != x ==> p.connections().is_active(h)
                && q.connections().records()[h].wheel_slot == p.connections().records()[h].wheel_slot,
    ensures
        forall|h: int| #[trigger] q.connections().is_active(h) && h != x ==> q.is_filed(h),
{
    assert forall|h: int| #[trigger] q.connections().is_active(h) && h != x implies q.is_filed(h) by {
        assert(p.connections().is_active(h));
    }
}

} // verus!
