//! Per-core connection store: a fixed arena of connection records, a stack of
//! free handles, an index by client four-tuple and an index by proxy-side
//! ephemeral port. Handle `h` always owns ephemeral port `port_base + h`.
use vstd::prelude::*;
use std::collections::HashMap;
use crate::connection::{
    after_client_fin, after_client_syn, after_open_server, after_server_fin,
    after_server_syn_ack, c2s_of, client_ack_post, client_reset_of, client_syn_reply,
    completes_client_handshake, fin_cause_after_client_fin, fin_cause_after_server_fin,
    forwards_client_fin, forwards_server_fin, open_server_reply, s2c_of, server_reset_of,
    server_rst_cause, server_syn_ack_reply, timeout_cause, ProxyConnection, Stamps,
};
use crate::tcp::{tuple_key, tuple_of, ClientTuple, ReleaseCause, ServerId, TcpHeader, TcpState};

verus! {

broadcast use vstd::std_specs::hash::group_hash_axioms;

/// Why the connection store refused a request.
#[derive(Clone, Copy, Debug, PartialEq, Eq, Structural)]
pub enum PoolError {
    /// no free record or ephemeral port is left
    Exhausted,
    /// the handle names no active connection
    NotActive,
}

/// Number of `true` entries in `s`.
pub open spec fn count_true(s: Seq<bool>) -> nat
    decreases s.len(),
{
    if s.len() == 0 {
        0
    } else {
        count_true(s.drop_last()) + if s.last() {
            1nat
        } else {
            0nat
        }
    }
}

proof fn lemma_count_true_update(s: Seq<bool>, i: int, v: bool)
    requires
        0 <= i < s.len(),
    ensures
        count_true(s.update(i, v)) + (if s[i] {
            1nat
        } else {
            0nat
        }) == count_true(s) + (if v {
            1nat
        } else {
            0nat
        }),
    decreases s.len(),
{
    let t = s.update(i, v);
    if i == s.len() - 1 {
        assert(t.drop_last() =~= s.drop_last());
    } else {
        lemma_count_true_update(s.drop_last(), i, v);
        assert(t.drop_last() =~= s.drop_last().update(i, v));
    }
}

proof fn lemma_count_true_all_false(n: nat)
    ensures
        count_true(Seq::new(n, |i: int| false)) == 0,
    decreases n,
{
    if n > 0 {
        lemma_count_true_all_false((n - 1) as nat);
        assert(Seq::new(n, |i: int| false).drop_last() =~= Seq::new((n - 1) as nat, |i: int| false));
    }
}

/// A record as handed out for a new client: the client's tuple, its own
/// ephemeral port, both sides in Listen, nothing buffered, no release cause.
pub open spec fn is_fresh_record(c: ProxyConnection, tuple: ClientTuple, port: int) -> bool {
    &&& c.client == tuple
    &&& c.proxy_port == port
    &&& c.c_state == TcpState::Listen
    &&& c.s_state == TcpState::Listen
    &&& c.server is None
    &&& c.payload@.len() == 0
    &&& c.release_cause is None
    &&& c.delta_c2s == 0
    &&& c.delta_s2c == 0
}

/// The connection store of one core. Its views: the records by handle, the
/// allocation flags, the free list and the two indexes.
pub struct ConnectionManager {
    conns: Vec<ProxyConnection>,
    active: Vec<bool>,
    free: Vec<usize>,
    by_client: HashMap<u128, usize>,
    port_base: u16,
}

impl ConnectionManager {
    pub open spec fn capacity(&self) -> nat {
        self.records().len()
    }

    pub closed spec fn first_port(&self) -> u16 {
        self.port_base
    }

    /// The records, by handle.
    pub closed spec fn records(&self) -> Seq<ProxyConnection> {
        self.conns@
    }

    /// Whether each handle is allocated.
    pub closed spec fn active_flags(&self) -> Seq<bool> {
        self.active@
    }

    /// The free handles, the next to be allocated last.
    pub closed spec fn free_list(&self) -> Seq<usize> {
        self.free@
    }

    /// The index by client four-tuple (packed by `tuple_key`).
    pub closed spec fn client_index(&self) -> Map<u128, usize> {
        self.by_client@
    }

    pub open spec fn is_active(&self, h: int) -> bool {
        0 <= h < self.capacity() && self.active_flags()[h]
    }

    pub open spec fn active_count(&self) -> nat {
        count_true(self.active_flags())
    }

    /// The index by proxy-side ephemeral port.
    pub open spec fn port_index(&self) -> Map<u16, usize> {
        Map::new(
            |p: u16|
                self.first_port() <= p < self.first_port() + self.capacity() && self.is_active(
                    p - self.first_port(),
                ),
            |p: u16| (p - self.first_port()) as usize,
        )
    }

    /// `n` is `self` with handle `h`, whose record had become `rec`, released
    /// under `cause`.
    pub open spec fn released_into(
        &self,
        n: ConnectionManager,
        h: int,
        rec: ProxyConnection,
        cause: ReleaseCause,
    ) -> bool {
        &&& n.capacity() == self.capacity()
        &&& n.first_port() == self.first_port()
        &&& n.free_list() == self.free_list().push(h as usize)
        &&& n.active_flags() == self.active_flags().update(h, false)
        &&& n.records() == self.records().update(
            h,
            ProxyConnection { release_cause: Some(cause), ..rec },
        )
        &&& n.client_index() == self.client_index().remove(tuple_key(self.records()[h].client))
    }

    /// `n` is `self` with the record of handle `h` replaced by `rec`.
    pub open spec fn updated_into(&self, n: ConnectionManager, h: int, rec: ProxyConnection) -> bool {
        &&& n.capacity() == self.capacity()
        &&& n.first_port() == self.first_port()
        &&& n.free_list() == self.free_list()
        &&& n.active_flags() == self.active_flags()
        &&& n.records() == self.records().update(h, rec)
        &&& n.client_index() == self.client_index()
    }

    pub open spec fn wf(&self) -> bool {
        &&& self.active_flags().len() == self.capacity()
        &&& self.capacity() <= 0x1_0000
        &&& self.inv()
    }

    pub closed spec fn inv(&self) -> bool {
        &&& self.active@.len() == self.conns@.len()
        &&& self.port_base + self.conns@.len() <= 0x1_0000
        &&& forall|h: int|
            0 <= h < self.conns@.len() ==> (#[trigger] self.conns@[h]).proxy_port == self.port_base
                + h
        &&& self.free@.no_duplicates()
        &&& forall|i: int|
            0 <= i < self.free@.len() ==> #[trigger] self.free@[i] < self.conns@.len()
                && !self.active@[self.free@[i] as int]
        &&& forall|h: int|
            0 <= h < self.conns@.len() && !#[trigger] self.active@[h] ==> self.free@.contains(
                h as usize,
            )
        &&& forall|k: u128|
            #[trigger] self.by_client@.contains_key(k) ==> {
                let h = self.by_client@[k];
                &&& h < self.conns@.len()
                &&& self.active@[h as int]
                &&& tuple_key(self.conns@[h as int].client) == k
            }
        &&& forall|h: int|
            0 <= h < self.conns@.len() && #[trigger] self.active@[h] ==> {
                &&& self.by_client@.contains_key(tuple_key(self.conns@[h].client))
                &&& self.by_client@[tuple_key(self.conns@[h].client)] == h
            }
        &&& self.free@.len() + count_true(self.active@) == self.conns@.len()
        &&& self.by_client@.dom().len() == count_true(self.active@)
    }

    /// A store of `capacity` free records owning the ephemeral ports
    /// `port_base .. port_base + capacity`.
    pub fn new(capacity: usize, port_base: u16) -> (m: ConnectionManager)
        requires
            port_base + capacity <= 0x1_0000,
        ensures
            m.wf(),
            m.capacity() == capacity,
            m.first_port() == port_base,
            m.active_count() == 0,
            forall|h: int| !#[trigger] m.is_active(h),
            m.free_list() == Seq::new(capacity as nat, |i: int| (capacity - 1 - i) as usize),
            m.client_index().is_empty(),
    {
        let mut conns: Vec<ProxyConnection> = Vec::new();
        let mut active: Vec<bool> = Vec::new();
        let mut i: usize = 0;
        while i < capacity
            invariant
                i <= capacity,
                port_base + capacity <= 0x1_0000,
                conns@.len() == i,
                active@ == Seq::new(i as nat, |j: int| false),
                forall|h: int| 0 <= h < i ==> (#[trigger] conns@[h]).proxy_port == port_base + h,
            decreases capacity - i,
        {
            conns.push(ProxyConnection::new((port_base as usize + i) as u16));
            active.push(false);
            i = i + 1;
            assert(active@ =~= Seq::new(i as nat, |j: int| false));
        }
        let mut free: Vec<usize> = Vec::new();
        let mut k: usize = capacity;
        while k > 0
            invariant
                k <= capacity,
                free@.len() == capacity - k,
                forall|j: int| 0 <= j < free@.len() ==> #[trigger] free@[j] == capacity - 1 - j,
            decreases k,
        {
            k = k - 1;
            free.push(k);
        }
        let by_client: HashMap<u128, usize> = HashMap::new();
        let m = ConnectionManager { conns, active, free, by_client, port_base };
        proof {
            lemma_count_true_all_false(capacity as nat);
            assert(m.free@ =~= Seq::new(capacity as nat, |i: int| (capacity - 1 - i) as usize));
            assert forall|h: int| 0 <= h < capacity && !#[trigger] m.active@[h] implies m.free@.contains(
                h as usize,
            ) by {
                assert(m.free@[capacity - 1 - h] == h);
            }
            assert(m.by_client@.dom() =~= Set::empty());
        }
        m
    }

    pub fn capacity_of(&self) -> (r: usize)
        ensures
            r == self.capacity(),
    {
        self.conns.len()
    }

    /// Number of handles on the free list.
    pub fn free_count(&self) -> (r: usize)
        ensures
            r == self.free_list().len(),
    {
        self.free.len()
    }

    /// The record of handle `h`.
    pub fn conn(&self, h: usize) -> (r: &ProxyConnection)
        requires
            h < self.capacity(),
        ensures
            *r == self.records()[h as int],
    {
        &self.conns[h]
    }

    /// Whether handle `h` is allocated.
    pub fn is_active_handle(&self, h: usize) -> (r: bool)
        requires
            self.wf(),
        ensures
            r == self.is_active(h as int),
    {
        h < self.active.len() && self.active[h]
    }

    /// The active connection of a client tuple, if any.
    pub fn get_by_client(&self, tuple: &ClientTuple) -> (r: Option<usize>)
        requires
            self.wf(),
        ensures
            r == (if self.client_index().contains_key(tuple_key(*tuple)) {
                Some(self.client_index()[tuple_key(*tuple)])
            } else {
                None::<usize>
            }),
            r matches Some(h) ==> self.is_active(h as int) && self.records()[h as int].client
                == *tuple,
    {
        let k = tuple.key();
        match self.by_client.get(&k) {
            Some(h) => {
                proof {
                    crate::tcp::lemma_tuple_key_injective(self.conns@[*h as int].client, *tuple);
                }
                Some(*h)
            },
            None => None,
        }
    }

    /// The active connection owning ephemeral port `port`, if any.
    pub fn get_by_proxy_port(&self, port: u16) -> (r: Option<usize>)
        requires
            self.wf(),
        ensures
            r == (if self.port_index().contains_key(port) {
                Some(self.port_index()[port])
            } else {
                None::<usize>
            }),
            r matches Some(h) ==> self.is_active(h as int) && self.records()[h as int].proxy_port
                == port,
    {
        if port >= self.port_base && ((port - self.port_base) as usize) < self.conns.len() {
            let h = (port - self.port_base) as usize;
            if self.active[h] {
                Some(h)
            } else {
                None
            }
        } else {
            None
        }
    }

    /// Returns the connection of `tuple`, drawing a fresh record from the free
    /// list when there is none; `is_new` tells which. Fails with `Exhausted`
    /// when a new record is needed and none is free.
    pub fn get_or_allocate_client(&mut self, tuple: &ClientTuple) -> (r: Result<
        (usize, bool),
        PoolError,
    >)
        requires
            old(self).wf(),
        ensures
            final(self).wf(),
            final(self).capacity() == old(self).capacity(),
            final(self).first_port() == old(self).first_port(),
            r matches Ok((h, _)) ==> final(self).is_active(h as int) && final(self).records()[h as int].client == *tuple,
            ({
                let k = tuple_key(*tuple);
                if old(self).client_index().contains_key(k) {
                    &&& r == Ok::<(usize, bool), PoolError>((old(self).client_index()[k], false))
                    &&& *final(self) == *old(self)
                } else if old(self).free_list().len() == 0 {
                    &&& r == Err::<(usize, bool), PoolError>(PoolError::Exhausted)
                    &&& *final(self) == *old(self)
                } else {
                    let h = old(self).free_list().last();
                    &&& r == Ok::<(usize, bool), PoolError>((h, true))
                    &&& final(self).free_list() == old(self).free_list().drop_last()
                    &&& final(self).active_flags() == old(self).active_flags().update(h as int, true)
                    &&& final(self).records() == old(self).records().update(
                        h as int,
                        final(self).records()[h as int],
                    )
                    &&& is_fresh_record(
                        final(self).records()[h as int],
                        *tuple,
                        old(self).first_port() + h,
                    )
                    &&& final(self).client_index() == old(self).client_index().insert(k, h)
                }
            }),
    {
        let k = tuple.key();
        match self.by_client.get(&k) {
            Some(h) => {
                proof {
                    crate::tcp::lemma_tuple_key_injective(self.conns@[*h as int].client, *tuple);
                }
                return Ok((*h, false));
            },
            None => {},
        }
        if self.free.len() == 0 {
            return Err(PoolError::Exhausted);
        }
        let ghost old_free = self.free@;
        let ghost old_active = self.active@;
        let h = match self.free.pop() {
            Some(h) => h,
            None => {
                return Err(PoolError::Exhausted);
            },
        };
        assert(old_free[old_free.len() - 1] == h);
        let port = self.conns[h].proxy_port;
        let mut c = ProxyConnection::new(port);
        c.client = *tuple;
        self.conns.set(h, c);
        self.active.set(h, true);
        self.by_client.insert(k, h);
        proof {
            lemma_count_true_update(old_active, h as int, true);
            assert forall|i: int| 0 <= i < self.free@.len() implies #[trigger] self.free@[i]
                < self.conns@.len() && !self.active@[self.free@[i] as int] by {
                assert(old_free[i] == self.free@[i]);
            }
            assert forall|g: int|
                0 <= g < self.conns@.len() && !#[trigger] self.active@[g] implies self.free@.contains(
                g as usize,
            ) by {
                let j = choose|j: int| 0 <= j < old_free.len() && old_free[j] == g as usize;
                assert(j != old_free.len() - 1);
                assert(self.free@[j] == g as usize);
            }
            assert forall|kk: u128| #[trigger] self.by_client@.contains_key(kk) implies {
                let g = self.by_client@[kk];
                &&& g < self.conns@.len()
                &&& self.active@[g as int]
                &&& tuple_key(self.conns@[g as int].client) == kk
            } by {
                if kk != k {
                    assert(old(self).by_client@.contains_key(kk));
                }
            }
            assert forall|g: int| 0 <= g < self.conns@.len() && #[trigger] self.active@[g] implies {
                &&& self.by_client@.contains_key(tuple_key(self.conns@[g].client))
                &&& self.by_client@[tuple_key(self.conns@[g].client)] == g
            } by {
                if g != h {
                    assert(old_active[g]);
                    assert(old(self).by_client@[tuple_key(old(self).conns@[g].client)] == g);
                }
            }
            assert(!old(self).by_client@.contains_key(k));
        }
        Ok((h, true))
    }

    /// Releases handle `h` with `cause`: its tuple leaves the client index,
    /// its ephemeral port goes back with the handle onto the free list, and
    /// the record keeps `cause`. Fails with `NotActive`, changing nothing,
    /// when `h` is not allocated, so no connection is released twice.
    pub fn release(&mut self, h: usize, cause: ReleaseCause) -> (r: Result<(), PoolError>)
        requires
            old(self).wf(),
        ensures
            final(self).wf(),
            final(self).capacity() == old(self).capacity(),
            final(self).first_port() == old(self).first_port(),
            !old(self).is_active(h as int) ==> r == Err::<(), PoolError>(PoolError::NotActive)
                && *final(self) == *old(self),
            old(self).is_active(h as int) ==> r == Ok::<(), PoolError>(()) && old(self).released_into(
                *final(self),
                h as int,
                old(self).records()[h as int],
                cause,
            ),
    {
        if h >= self.conns.len() || !self.active[h] {
            return Err(PoolError::NotActive);
        }
        let ghost old_active = self.active@;
        let k = self.conns[h].client.key();
        self.by_client.remove(&k);
        self.active.set(h, false);
        self.conns[h].release_cause = Some(cause);
        self.free.push(h);
        proof {
            lemma_count_true_update(old_active, h as int, false);
            assert(old(self).by_client@.contains_key(k));
            assert(self.by_client@ == old(self).by_client@.remove(k));
            assert forall|i: int| 0 <= i < self.free@.len() implies #[trigger] self.free@[i]
                < self.conns@.len() && !self.active@[self.free@[i] as int] by {
                if i < self.free@.len() - 1 {
                    assert(old(self).free@[i] == self.free@[i]);
                }
            }
            assert forall|g: int|
                0 <= g < self.conns@.len() && !#[trigger] self.active@[g] implies self.free@.contains(
                g as usize,
            ) by {
                if g == h {
                    assert(self.free@[self.free@.len() - 1] == h);
                } else {
                    let j = choose|j: int|
                        0 <= j < old(self).free@.len() && old(self).free@[j] == g as usize;
                    assert(self.free@[j] == g as usize);
                }
            }
            assert forall|kk: u128| #[trigger] self.by_client@.contains_key(kk) implies {
                let g = self.by_client@[kk];
                &&& g < self.conns@.len()
                &&& self.active@[g as int]
                &&& tuple_key(self.conns@[g as int].client) == kk
            } by {
                assert(old(self).by_client@.contains_key(kk));
            }
            assert forall|g: int| 0 <= g < self.conns@.len() && #[trigger] self.active@[g] implies {
                &&& self.by_client@.contains_key(tuple_key(self.conns@[g].client))
                &&& self.by_client@[tuple_key(self.conns@[g].client)] == g
            } by {
                assert(old_active[g]);
                assert(old(self).by_client@[tuple_key(old(self).conns@[g].client)] == g);
            }
            assert forall|i: int, j: int|
                0 <= i < self.free@.len() && 0 <= j < self.free@.len() && i != j implies self.free@[i]
                != self.free@[j] by {
                if i < self.free@.len() - 1 && j < self.free@.len() - 1 {
                    assert(old(self).free@[i] == self.free@[i]);
                    assert(old(self).free@[j] == self.free@[j]);
                }
            }
        }
        Ok(())
    }

    proof fn lemma_record_update_keeps_wf(&self, n: ConnectionManager, h: int)
        requires
            self.wf(),
            0 <= h < self.conns@.len(),
            n.conns@ == self.conns@.update(h, n.conns@[h]),
            n.conns@[h].client == self.conns@[h].client,
            n.conns@[h].proxy_port == self.conns@[h].proxy_port,
            n.active@ == self.active@,
            n.free@ == self.free@,
            n.by_client@ == self.by_client@,
            n.port_base == self.port_base,
        ensures
            n.wf(),
    {
        assert forall|g: int| 0 <= g < n.conns@.len() implies (#[trigger] n.conns@[g]).proxy_port
            == n.port_base + g by {
            assert(self.conns@[g].proxy_port == self.port_base + g);
        }
        assert forall|k: u128| #[trigger] n.by_client@.contains_key(k) implies {
            let g = n.by_client@[k];
            &&& g < n.conns@.len()
            &&& n.active@[g as int]
            &&& tuple_key(n.conns@[g as int].client) == k
        } by {
            assert(self.by_client@.contains_key(k));
        }
        assert forall|g: int| 0 <= g < n.conns@.len() && #[trigger] n.active@[g] implies {
            &&& n.by_client@.contains_key(tuple_key(n.conns@[g].client))
            &&& n.by_client@[tuple_key(n.conns@[g].client)] == g
        } by {
            assert(self.active@[g]);
        }
    }

    /// A client SYN for handle `h`, which the segment's tuple must own: see
    /// `ProxyConnection::on_client_syn`. Anything else is dropped.
    pub fn client_syn(&mut self, h: usize, syn: &TcpHeader, isn: u32) -> (r: Option<TcpHeader>)
        requires
            old(self).wf(),
        ensures
            final(self).wf(),
            ({
                let ok = old(self).is_active(h as int) && old(self).records()[h as int].client
                    == tuple_of(*syn);
                &&& ok ==> old(self).updated_into(
                    *final(self),
                    h as int,
                    after_client_syn(old(self).records()[h as int], *syn, isn),
                ) && r == client_syn_reply(old(self).records()[h as int], *syn, isn)
                &&& !ok ==> *final(self) == *old(self) && r is None
            }),
    {
        if !self.is_active_handle(h) || ClientTuple::of_segment(syn) != self.conns[h].client {
            return None;
        }
        let ghost before = *self;
        let r = self.conns[h].on_client_syn(syn, isn);
        proof {
            before.lemma_record_update_keeps_wf(*self, h as int);
        }
        r
    }

    /// A client segment with payload `data` for handle `h`: see
    /// `ProxyConnection::on_client_ack`. Returns whether the client handshake
    /// completed.
    pub fn client_data(&mut self, h: usize, seg: &TcpHeader, data: &[u8]) -> (r: bool)
        requires
            old(self).wf(),
        ensures
            final(self).wf(),
            old(self).is_active(h as int) ==> {
                &&& old(self).updated_into(*final(self), h as int, final(self).records()[h as int])
                &&& client_ack_post(
                    old(self).records()[h as int],
                    final(self).records()[h as int],
                    *seg,
                    data@,
                )
                &&& r == completes_client_handshake(old(self).records()[h as int], *seg, data@)
            },
            !old(self).is_active(h as int) ==> *final(self) == *old(self) && !r,
    {
        if !self.is_active_handle(h) {
            return false;
        }
        let ghost before = *self;
        let r = self.conns[h].on_client_ack(seg, data);
        proof {
            before.lemma_record_update_keeps_wf(*self, h as int);
        }
        r
    }

    /// Opens the server side of handle `h` toward the backend that server
    /// selection chose, with proxy sequence number `isn`: see
    /// `ProxyConnection::open_server`. The SYN leaves from the handle's own
    /// ephemeral port.
    pub fn open_server(&mut self, h: usize, server: ServerId, isn: u32) -> (r: Option<TcpHeader>)
        requires
            old(self).wf(),
        ensures
            final(self).wf(),
            old(self).is_active(h as int) ==> old(self).updated_into(
                *final(self),
                h as int,
                after_open_server(old(self).records()[h as int], server, isn),
            ) && r == open_server_reply(old(self).records()[h as int], server, isn),
            !old(self).is_active(h as int) ==> *final(self) == *old(self) && r is None,
    {
        if !self.is_active_handle(h) {
            return None;
        }
        let ghost before = *self;
        let r = self.conns[h].open_server(server, isn);
        proof {
            before.lemma_record_update_keeps_wf(*self, h as int);
        }
        r
    }

    /// The server's SYN-ACK for handle `h`: see
    /// `ProxyConnection::on_server_syn_ack`.
    pub fn server_syn_ack(&mut self, h: usize, seg: &TcpHeader) -> (r: Option<TcpHeader>)
        requires
            old(self).wf(),
        ensures
            final(self).wf(),
            old(self).is_active(h as int) ==> old(self).updated_into(
                *final(self),
                h as int,
                after_server_syn_ack(old(self).records()[h as int], *seg),
            ) && r == server_syn_ack_reply(old(self).records()[h as int], *seg),
            !old(self).is_active(h as int) ==> *final(self) == *old(self) && r is None,
    {
        if !self.is_active_handle(h) {
            return None;
        }
        let ghost before = *self;
        let r = self.conns[h].on_server_syn_ack(seg);
        proof {
            before.lemma_record_update_keeps_wf(*self, h as int);
        }
        r
    }

    /// Records the deadline of handle `h` and the timer-wheel slot it was
    /// placed in.
    pub fn set_deadline(&mut self, h: usize, deadline: u64, slot: u64)
        requires
            old(self).wf(),
        ensures
            final(self).wf(),
            old(self).is_active(h as int) ==> old(self).updated_into(
                *final(self),
                h as int,
                ProxyConnection {
                    deadline: deadline,
                    wheel_slot: slot,
                    ..old(self).records()[h as int]
                },
            ),
            !old(self).is_active(h as int) ==> *final(self) == *old(self),
    {
        if !self.is_active_handle(h) {
            return;
        }
        let ghost before = *self;
        self.conns[h].deadline = deadline;
        self.conns[h].wheel_slot = slot;
        proof {
            assert(self.conns@ =~= before.conns@.update(h as int, self.conns@[h as int]));
            before.lemma_record_update_keeps_wf(*self, h as int);
        }
    }

    /// Records the sequence number the server of handle `h` last
    /// acknowledged.
    pub fn note_server_ack(&mut self, h: usize, ack: u32)
        requires
            old(self).wf(),
        ensures
            final(self).wf(),
            old(self).is_active(h as int) ==> old(self).updated_into(
                *final(self),
                h as int,
                ProxyConnection { server_expects: ack, ..old(self).records()[h as int] },
            ),
            !old(self).is_active(h as int) ==> *final(self) == *old(self),
    {
        if !self.is_active_handle(h) {
            return;
        }
        let ghost before = *self;
        self.conns[h].server_expects = ack;
        proof {
            before.lemma_record_update_keeps_wf(*self, h as int);
        }
    }

    /// Records the handshake times of handle `h`.
    pub fn set_stamps(&mut self, h: usize, stamps: Stamps)
        requires
            old(self).wf(),
        ensures
            final(self).wf(),
            old(self).is_active(h as int) ==> old(self).updated_into(
                *final(self),
                h as int,
                ProxyConnection { stamps: stamps, ..old(self).records()[h as int] },
            ),
            !old(self).is_active(h as int) ==> *final(self) == *old(self),
    {
        if !self.is_active_handle(h) {
            return;
        }
        let ghost before = *self;
        self.conns[h].stamps = stamps;
        proof {
            before.lemma_record_update_keeps_wf(*self, h as int);
        }
    }

    /// Gives up handle `h` (no backend, or a timeout): releases it with
    /// `cause` and returns the RST for the client.
    pub fn abort(&mut self, h: usize, cause: ReleaseCause) -> (r: Option<TcpHeader>)
        requires
            old(self).wf(),
        ensures
            final(self).wf(),
            old(self).is_active(h as int) ==> r == Some(client_reset_of(old(self).records()[h as int]))
                && old(self).released_into(
                *final(self),
                h as int,
                old(self).records()[h as int],
                cause,
            ),
            !old(self).is_active(h as int) ==> *final(self) == *old(self) && r is None,
    {
        if !self.is_active_handle(h) {
            return None;
        }
        let rst = self.conns[h].client_reset();
        let _ = self.release(h, cause);
        Some(rst)
    }

    /// A timer-wheel entry for handle `h` fired at cycle count `now`. An
    /// active connection whose deadline has passed is released, as an abort
    /// while the proxy's SYN is unanswered and as a timeout otherwise; the
    /// client gets an RST, and so does the server once the proxy's SYN went
    /// out. An entry
    /// made stale by a later deadline, or by a release, is ignored.
    pub fn expire(&mut self, h: usize, now: u64) -> (r: Option<(TcpHeader, Option<TcpHeader>)>)
        requires
            old(self).wf(),
        ensures
            final(self).wf(),
            (old(self).is_active(h as int) && old(self).records()[h as int].deadline <= now) ==> {
                let c = old(self).records()[h as int];
                &&& r == Some(
                    (
                        client_reset_of(c),
                        if c.s_state != TcpState::Listen {
                            Some(server_reset_of(c))
                        } else {
                            None::<TcpHeader>
                        },
                    ),
                )
                &&& old(self).released_into(*final(self), h as int, c, timeout_cause(c))
            },
            !(old(self).is_active(h as int) && old(self).records()[h as int].deadline <= now)
                ==> *final(self) == *old(self) && r is None,
    {
        if !self.is_active_handle(h) || self.conns[h].deadline > now {
            return None;
        }
        let to_server = if self.conns[h].s_state != TcpState::Listen {
            Some(self.conns[h].server_reset())
        } else {
            None
        };
        let cause = self.conns[h].timeout_cause();
        match self.abort(h, cause) {
            Some(x) => Some((x, to_server)),
            None => None,
        }
    }

    /// A server RST for handle `h`: the connection is released, as an abort
    /// while the proxy's SYN was unanswered and as a server reset otherwise,
    /// and the client gets the RST translated into its own numbering.
    pub fn server_rst(&mut self, h: usize, seg: &TcpHeader) -> (r: Option<TcpHeader>)
        requires
            old(self).wf(),
        ensures
            final(self).wf(),
            old(self).is_active(h as int) ==> {
                let c = old(self).records()[h as int];
                &&& r == Some(
                    if c.s_state == TcpState::SynSent {
                        client_reset_of(c)
                    } else {
                        s2c_of(c, *seg)
                    },
                )
                &&& old(self).released_into(*final(self), h as int, c, server_rst_cause(c))
            },
            !old(self).is_active(h as int) ==> *final(self) == *old(self) && r is None,
    {
        if !self.is_active_handle(h) {
            return None;
        }
        let cause = self.conns[h].server_rst_cause();
        let rst = if self.conns[h].s_state == TcpState::SynSent {
            self.conns[h].client_reset()
        } else {
            self.conns[h].translate_s2c(seg)
        };
        let _ = self.release(h, cause);
        Some(rst)
    }

    /// A client RST for handle `h`: the connection is released as a client
    /// reset, and the server, once the proxy's SYN went out, gets the RST
    /// translated into its own numbering.
    pub fn client_rst(&mut self, h: usize, seg: &TcpHeader) -> (r: Option<TcpHeader>)
        requires
            old(self).wf(),
        ensures
            final(self).wf(),
            old(self).is_active(h as int) ==> {
                let c = old(self).records()[h as int];
                &&& r == (if c.s_state != TcpState::Listen {
                    Some(c2s_of(c, *seg))
                } else {
                    None::<TcpHeader>
                })
                &&& old(self).released_into(*final(self), h as int, c, ReleaseCause::ClientRst)
            },
            !old(self).is_active(h as int) ==> *final(self) == *old(self) && r is None,
    {
        if !self.is_active_handle(h) {
            return None;
        }
        let rst = if self.conns[h].s_state != TcpState::Listen {
            Some(self.conns[h].translate_c2s(seg))
        } else {
            None
        };
        let _ = self.release(h, ReleaseCause::ClientRst);
        rst
    }

    /// A client FIN for handle `h`: see `ProxyConnection::on_client_fin`.
    /// When it is the second FIN the connection is released under the
    /// returned cause.
    pub fn client_fin(&mut self, h: usize, seg: &TcpHeader) -> (r: (
        Option<TcpHeader>,
        Option<ReleaseCause>,
    ))
        requires
            old(self).wf(),
        ensures
            final(self).wf(),
            old(self).is_active(h as int) ==> {
                let c = old(self).records()[h as int];
                &&& r.0 == (if forwards_client_fin(c) {
                    Some(c2s_of(c, *seg))
                } else {
                    None::<TcpHeader>
                })
                &&& r.1 == fin_cause_after_client_fin(c)
                &&& r.1 is None ==> old(self).updated_into(*final(self), h as int, after_client_fin(c))
                &&& r.1 matches Some(cause) ==> old(self).released_into(
                    *final(self),
                    h as int,
                    after_client_fin(c),
                    cause,
                )
            },
            !old(self).is_active(h as int) ==> *final(self) == *old(self) && r == (
                None::<TcpHeader>,
                None::<ReleaseCause>,
            ),
    {
        if !self.is_active_handle(h) {
            return (None, None);
        }
        let ghost before = *self;
        let r = self.conns[h].on_client_fin(seg);
        proof {
            before.lemma_record_update_keeps_wf(*self, h as int);
        }
        let ghost mid = *self;
        if let Some(cause) = r.1 {
            let _ = self.release(h, cause);
            assert(self.records() =~= before.records().update(
                h as int,
                ProxyConnection { release_cause: Some(cause), ..mid.records()[h as int] },
            ));
        }
        r
    }

    /// A server FIN for handle `h`, symmetrically to `client_fin`.
    pub fn server_fin(&mut self, h: usize, seg: &TcpHeader) -> (r: (
        Option<TcpHeader>,
        Option<ReleaseCause>,
    ))
        requires
            old(self).wf(),
        ensures
            final(self).wf(),
            old(self).is_active(h as int) ==> {
                let c = old(self).records()[h as int];
                &&& r.0 == (if forwards_server_fin(c) {
                    Some(s2c_of(c, *seg))
                } else {
                    None::<TcpHeader>
                })
                &&& r.1 == fin_cause_after_server_fin(c)
                &&& r.1 is None ==> old(self).updated_into(*final(self), h as int, after_server_fin(c))
                &&& r.1 matches Some(cause) ==> old(self).released_into(
                    *final(self),
                    h as int,
                    after_server_fin(c),
                    cause,
                )
            },
            !old(self).is_active(h as int) ==> *final(self) == *old(self) && r == (
                None::<TcpHeader>,
                None::<ReleaseCause>,
            ),
    {
        if !self.is_active_handle(h) {
            return (None, None);
        }
        let ghost before = *self;
        let r = self.conns[h].on_server_fin(seg);
        proof {
            before.lemma_record_update_keeps_wf(*self, h as int);
        }
        let ghost mid = *self;
        if let Some(cause) = r.1 {
            let _ = self.release(h, cause);
            assert(self.records() =~= before.records().update(
                h as int,
                ProxyConnection { release_cause: Some(cause), ..mid.records()[h as int] },
            ));
        }
        r
    }
}

proof fn lemma_port_set_len(base: u16, active: Seq<bool>, n: nat)
    requires
        n <= active.len(),
        base + active.len() <= 0x1_0000,
    ensures
        Set::new(|p: u16| base <= p < base + n && active[p - base]).finite(),
        Set::new(|p: u16| base <= p < base + n && active[p - base]).len() == count_true(
            active.take(n as int),
        ),
    decreases n,
{
    let s = Set::new(|p: u16| base <= p < base + n && active[p - base]);
    if n == 0 {
        assert(s =~= Set::empty());
        assert(active.take(0) =~= Seq::<bool>::empty());
    } else {
        let n1 = (n - 1) as nat;
        lemma_port_set_len(base, active, n1);
        let s1 = Set::new(|p: u16| base <= p < base + n1 && active[p - base]);
        let top = (base + n1) as u16;
        assert(active.take(n as int).drop_last() =~= active.take(n1 as int));
        if active[n1 as int] {
            assert(s =~= s1.insert(top));
            assert(!s1.contains(top));
        } else {
            assert(s =~= s1);
        }
    }
}

/// Conservation of the pool, whatever sequence of allocations and releases
/// produced it: free handles and active connections together make up the
/// capacity, the client index and the port index both hold exactly one entry
/// per active connection, and both lead to the same record.
pub proof fn lemma_pool_conservation(m: ConnectionManager)
    requires
        m.wf(),
    ensures
        m.free_list().len() + m.active_count() == m.capacity(),
        m.client_index().dom().len() == m.active_count(),
        m.port_index().dom().len() == m.active_count(),
        forall|h: int|
            #![trigger m.records()[h]]
            m.is_active(h) ==> {
                &&& m.client_index().contains_key(tuple_key(m.records()[h].client))
                &&& m.client_index()[tuple_key(m.records()[h].client)] == h
                &&& m.port_index().contains_key(m.records()[h].proxy_port)
                &&& m.port_index()[m.records()[h].proxy_port] == h
            },
        forall|k: u128|
            #[trigger] m.client_index().contains_key(k) ==> {
                let h = m.client_index()[k];
                &&& m.is_active(h as int)
                &&& m.port_index()[m.records()[h as int].proxy_port] == h
            },
{
    lemma_port_set_len(m.port_base, m.active@, m.conns@.len());
    assert(m.active@.take(m.conns@.len() as int) =~= m.active@);
    assert(m.port_index().dom() =~= Set::new(
        |p: u16| m.port_base <= p < m.port_base + m.conns@.len() && m.active@[p - m.port_base],
    ));
    assert forall|k: u128| #[trigger] m.client_index().contains_key(k) implies {
        let h = m.client_index()[k];
        &&& m.is_active(h as int)
        &&& m.port_index()[m.records()[h as int].proxy_port] == h
    } by {
        let h = m.by_client@[k];
        assert(m.conns@[h as int].proxy_port == m.port_base + h);
    }
}

/// Every release stamps exactly one cause: the released record carries the
/// cause it was released with and no longer counts as active, so a further
/// release of the same handle fails and cannot stamp a second one, while the
/// handle is back on the free list for the next allocation.
pub proof fn lemma_release_stamps_one_cause(
    m: ConnectionManager,
    n: ConnectionManager,
    h: int,
    rec: ProxyConnection,
    cause: ReleaseCause,
)
    requires
        m.wf(),
        m.is_active(h),
        m.released_into(n, h, rec, cause),
    ensures
        n.records()[h].release_cause == Some(cause),
        !n.is_active(h),
        n.free_list().last() == h,
        n.active_count() + 1 == m.active_count(),
{
    lemma_count_true_update(m.active@, h, false);
}

} // verus!
