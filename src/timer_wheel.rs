//! A hashed single-level timer wheel over CPU cycle counts.
//!
//! Slot `s` holds the items due when the wheel's advance `a` (the number of
//! whole resolutions elapsed since `start`) satisfies `(a - 1) mod N == s`.
use vstd::prelude::*;

verus! {

/// CPU cycles per millisecond on the reference machine.
pub const MILLIS_TO_CYCLES: u64 = 2270000u64;

/// `ms` milliseconds in cycles, or the largest cycle count where that
/// overflows.
pub fn millis_to_cycles(ms: u64) -> (r: u64)
    ensures
        r == (if ms * MILLIS_TO_CYCLES <= u64::MAX {
            ms * MILLIS_TO_CYCLES
        } else {
            u64::MAX as int
        }),
{
    if ms <= u64::MAX / MILLIS_TO_CYCLES {
        ms * MILLIS_TO_CYCLES
    } else {
        u64::MAX
    }
}

/// A ring of `N` slots, each an unordered bag of items, covering
/// `resolution` cycles per slot.
pub struct TimerWheel<T> {
    resolution_cycles: u64,
    no_slots: usize,
    /// slot which was drained at the last tick
    last_slot: usize,
    /// number of slots drained since start
    last_advance: u64,
    /// cycle count at creation minus one resolution
    start: u64,
    slots: Vec<Vec<T>>,
}

impl<T> TimerWheel<T> {
    pub closed spec fn start_cycles(&self) -> u64 {
        self.start
    }

    pub closed spec fn resolution(&self) -> u64 {
        self.resolution_cycles
    }

    pub closed spec fn slot_count(&self) -> nat {
        self.no_slots as nat
    }

    /// The advance up to which all slots have been drained.
    pub closed spec fn drained_advance(&self) -> u64 {
        self.last_advance
    }

    /// The items waiting in each slot.
    pub closed spec fn pending(&self) -> Seq<Seq<T>> {
        Seq::new(self.slots@.len(), |i: int| self.slots@[i]@)
    }

    pub open spec fn wf(&self) -> bool {
        &&& self.pending().len() == self.slot_count()
        &&& self.inv()
    }

    pub closed spec fn inv(&self) -> bool {
        &&& self.no_slots > 0
        &&& self.resolution_cycles > 0
        &&& self.slots@.len() == self.no_slots
        &&& self.last_slot as int == self.slot_for_advance(self.last_advance as int)
        &&& (self.no_slots - 1) * self.resolution_cycles <= u64::MAX
    }

    /// Number of whole resolutions elapsed between `start` and `t`.
    pub open spec fn advance_at(&self, t: u64) -> int {
        if t >= self.start_cycles() {
            (t - self.start_cycles()) as int / self.resolution() as int
        } else {
            0
        }
    }

    /// The slot drained when the wheel reaches advance `a`.
    pub open spec fn slot_for_advance(&self, a: int) -> int {
        (a - 1) % (self.slot_count() as int)
    }

    /// The slot that a deadline `when` is placed in.
    pub open spec fn slot_of(&self, when: u64) -> int {
        self.slot_for_advance(self.advance_at(when))
    }

    /// The advance from which a tick at `now` inspects slots: the last drained
    /// advance, or one full rotation before `now` when the wheel fell behind.
    pub open spec fn catch_up_floor(&self, now: u64) -> int {
        let adv = self.advance_at(now);
        if adv > self.drained_advance() + self.slot_count() {
            adv - self.slot_count()
        } else {
            self.drained_advance() as int
        }
    }

    /// The advance at which the slot of `when` is next drained.
    pub open spec fn next_drain(&self, when: u64) -> int {
        let la = self.drained_advance() as int;
        la + 1 + (self.advance_at(when) - la - 1) % (self.slot_count() as int)
    }

    /// `n`, `drained` and `more` are a possible outcome of a tick at `now`.
    /// Slots are inspected in order of advance, from the catch-up floor up to
    /// the advance of `now`; the first non-empty one is drained and handed
    /// out, with `more` telling whether due slots remain. Without one, the
    /// wheel records everything up to `now` as drained.
    pub open spec fn ticked(&self, now: u64, n: TimerWheel<T>, drained: Option<Vec<T>>, more: bool) -> bool {
        let adv = self.advance_at(now);
        let lo = self.catch_up_floor(now);
        let la = n.drained_advance() as int;
        &&& n.start_cycles() == self.start_cycles()
        &&& n.resolution() == self.resolution()
        &&& n.slot_count() == self.slot_count()
        &&& lo <= la
        &&& n.drained_advance() >= self.drained_advance()
        &&& match drained {
            Some(v) => {
                &&& lo < la <= adv
                &&& v@.len() > 0
                &&& v@ == self.pending()[self.slot_for_advance(la)]
                &&& n.pending() == self.pending().update(self.slot_for_advance(la), Seq::empty())
                &&& forall|a: int|
                    lo < a < la ==> self.pending()[#[trigger] self.slot_for_advance(a)].len() == 0
                &&& more == (la < adv)
            },
            None => {
                &&& la == (if adv > lo {
                    adv
                } else {
                    lo
                })
                &&& n.pending() == self.pending()
                &&& forall|a: int|
                    lo < a <= adv ==> self.pending()[#[trigger] self.slot_for_advance(a)].len() == 0
                &&& !more
            },
        }
    }

    /// Creates a wheel of `no_slots` empty slots, each a bag of
    /// `resolution_cycles` cycles, started at cycle count `now`.
    pub fn new(no_slots: usize, resolution_cycles: u64, slot_capacity: usize, now: u64) -> (w:
        TimerWheel<T>)
        requires
            no_slots > 0,
            resolution_cycles > 0,
            resolution_cycles <= now,
            (no_slots - 1) * resolution_cycles <= u64::MAX,
        ensures
            w.wf(),
            w.start_cycles() == now - resolution_cycles,
            w.resolution() == resolution_cycles,
            w.slot_count() == no_slots,
            w.drained_advance() == 0,
            w.pending() == Seq::new(no_slots as nat, |i: int| Seq::<T>::empty()),
    {
        let mut slots: Vec<Vec<T>> = Vec::new();
        let mut i: usize = 0;
        while i < no_slots
            invariant
                i <= no_slots,
                slots@.len() == i,
                forall|j: int| 0 <= j < i ==> (#[trigger] slots@[j])@.len() == 0,
            decreases no_slots - i,
        {
            slots.push(Vec::with_capacity(slot_capacity));
            i = i + 1;
        }
        let w = TimerWheel {
            resolution_cycles,
            no_slots,
            last_slot: no_slots - 1,
            last_advance: 0,
            start: now - resolution_cycles,
            slots,
        };
        assert forall|j: int| 0 <= j < no_slots implies w.pending()[j] == Seq::<T>::empty() by {
            assert(w.pending()[j] =~= Seq::<T>::empty());
        }
        assert(w.pending() =~= Seq::new(no_slots as nat, |i: int| Seq::<T>::empty()));
        assert((0 - 1) % (no_slots as int) == no_slots - 1) by (nonlinear_arith)
            requires
                no_slots > 0,
        ;
        w
    }

    pub fn get_resolution(&self) -> (r: u64)
        ensures
            r == self.resolution(),
            self.wf() ==> r > 0,
    {
        self.resolution_cycles
    }

    /// The slot drained last, that of the drained advance.
    pub fn last_drained_slot(&self) -> (r: usize)
        requires
            self.wf(),
        ensures
            r == self.slot_for_advance(self.drained_advance() as int),
    {
        self.last_slot
    }

    /// The longest timeout that lands in a distinct slot: `(N - 1) * resolution`.
    pub fn get_max_timeout_cycles(&self) -> (r: u64)
        requires
            self.wf(),
        ensures
            r == (self.slot_count() - 1) * self.resolution(),
    {
        (self.no_slots as u64 - 1) * self.resolution_cycles
    }
    /// Places `what` in the slot of deadline `when` and returns that slot:
    /// `((when - start) / resolution - 1) mod N`.
    pub fn schedule(&mut self, when: &u64, what: T) -> (slot: u64)
        requires
            old(self).wf(),
        ensures
            final(self).wf(),
            slot == old(self).slot_of(*when),
            slot < old(self).slot_count(),
            final(self).start_cycles() == old(self).start_cycles(),
            final(self).resolution() == old(self).resolution(),
            final(self).slot_count() == old(self).slot_count(),
            final(self).drained_advance() == old(self).drained_advance(),
            final(self).pending() == old(self).pending().update(
                slot as int,
                old(self).pending()[slot as int].push(what),
            ),
    {
        let dur: u64 = if *when >= self.start {
            *when - self.start
        } else {
            0
        };
        let adv: u64 = dur / self.resolution_cycles;
        let n: u64 = self.no_slots as u64;
        let slot: u64 = if adv >= 1 {
            (adv - 1) % n
        } else {
            n - 1
        };
        proof {
            if adv == 0 {
                assert((0 - 1) % (n as int) == n - 1) by (nonlinear_arith)
                    requires
                        n > 0,
                ;
            }
        }
        let ghost before = self.pending();
        self.slots[slot as usize].push(what);
        assert(self.pending() =~= before.update(slot as int, before[slot as int].push(what)));
        slot
    }

    /// Drains the next non-empty slot that is due at cycle count `now`.
    ///
    /// Slots are inspected in order of advance, from the catch-up floor up to
    /// the advance of `now`; a wheel more than one rotation behind skips the
    /// oldest slots. The flag tells whether further due slots remain.
    pub fn tick(&mut self, now: &u64) -> (r: (Option<Vec<T>>, bool))
        requires
            old(self).wf(),
        ensures
            final(self).wf(),
            old(self).ticked(*now, *final(self), r.0, r.1),
    {
        let dur: u64 = if *now >= self.start {
            *now - self.start
        } else {
            0
        };
        let advance: u64 = dur / self.resolution_cycles;
        if advance <= self.last_advance {
            return (None, false);
        }
        let n: u64 = self.no_slots as u64;
        let progress: u64 = advance - self.last_advance;
        let mut slots_to_process: u64 = if progress < n {
            progress
        } else {
            n
        };
        if progress > n {
            self.last_advance = advance - n;
            self.last_slot = ((advance - n - 1) % n) as usize;
        }
        let ghost lo = old(self).catch_up_floor(*now);
        while slots_to_process > 0
            invariant
                self.wf(),
                self.start == old(self).start,
                self.resolution_cycles == old(self).resolution_cycles,
                self.no_slots == old(self).no_slots,
                self.slots@ == old(self).slots@,
                n == self.no_slots,
                advance as int == old(self).advance_at(*now),
                lo == old(self).catch_up_floor(*now),
                lo <= self.last_advance,
                self.last_advance >= old(self).last_advance,
                self.last_advance + slots_to_process == advance,
                forall|a: int|
                    lo < a <= self.last_advance ==> old(self).pending()[#[trigger] old(
                        self,
                    ).slot_for_advance(a)].len() == 0,
            decreases slots_to_process,
        {
            proof {
                let m = n as int;
                let la = self.last_advance as int;
                vstd::arithmetic::div_mod::lemma_add_mod_noop(la - 1, 1, m);
                if m == 1 {
                    assert(la % m == 0) by (nonlinear_arith)
                        requires
                            m == 1,
                    ;
                } else {
                    assert(1int % m == 1) by (nonlinear_arith)
                        requires
                            m > 1,
                    ;
                }
            }
            self.last_slot = (self.last_slot + 1) % self.no_slots;
            self.last_advance = self.last_advance + 1;
            if self.slots[self.last_slot].len() > 0 {
                let ghost before = self.pending();
                let mut drained: Vec<T> = Vec::new();
                std::mem::swap(&mut self.slots[self.last_slot], &mut drained);
                assert(self.pending() =~= before.update(self.last_slot as int, Seq::empty()));
                return (Some(drained), slots_to_process > 1);
            }
            slots_to_process = slots_to_process - 1;
        }
        (None, false)
    }
}

/// A deadline placed by `schedule` sits in the slot that the wheel drains when
/// its advance reaches `next_drain(deadline)`: after the last drained advance,
/// within one rotation, and no slot inspected before then is that slot. For a
/// deadline whose advance lies within one rotation after the last drained one,
/// that is the deadline's own advance, whose first cycle comes less than one
/// resolution before the deadline.
pub proof fn lemma_schedule_tick_round_trip<T>(w: TimerWheel<T>, deadline: u64)
    requires
        w.wf(),
    ensures
        w.drained_advance() < w.next_drain(deadline) <= w.drained_advance() + w.slot_count(),
        w.slot_for_advance(w.next_drain(deadline)) == w.slot_of(deadline),
        forall|b: int|
            w.drained_advance() < b < w.next_drain(deadline) ==> #[trigger] w.slot_for_advance(b)
                != w.slot_of(deadline),
        (w.drained_advance() < w.advance_at(deadline) <= w.drained_advance() + w.slot_count())
            ==> w.next_drain(deadline) == w.advance_at(deadline),
        deadline >= w.start_cycles() ==> (w.start_cycles() + w.advance_at(deadline) * w.resolution()
            <= deadline < w.start_cycles() + (w.advance_at(deadline) + 1) * w.resolution()),
{
    let m = w.slot_count() as int;
    let la = w.drained_advance() as int;
    let ad = w.advance_at(deadline);
    let r = (ad - la - 1) % m;
    let a = w.next_drain(deadline);
    assert(0 <= r < m) by {
        vstd::arithmetic::div_mod::lemma_mod_bound(ad - la - 1, m);
    }
    assert(a == la + 1 + r);
    vstd::arithmetic::div_mod::lemma_add_mod_noop_right(la, ad - la - 1, m);
    assert((la + r) % m == (ad - 1) % m);
    assert forall|b: int| la < b < a implies #[trigger] w.slot_for_advance(b) != w.slot_of(deadline) by {
        let k = b - 1 - la;
        assert(0 <= k < r);
        if (la + k) % m == (la + r) % m {
            vstd::arithmetic::div_mod::lemma_sub_mod_noop(la + r, la + k, m);
            assert(((la + r) % m - (la + k) % m) % m == 0) by (nonlinear_arith)
                requires
                    (la + k) % m == (la + r) % m,
                    m > 0,
            ;
            vstd::arithmetic::div_mod::lemma_small_mod((r - k) as nat, m as nat);
            assert(la + r - (la + k) == r - k);
        }
    }
    if la < ad <= la + m {
        vstd::arithmetic::div_mod::lemma_small_mod((ad - la - 1) as nat, m as nat);
    }
    if deadline >= w.start_cycles() {
        let d = (deadline - w.start_cycles()) as int;
        let res = w.resolution() as int;
        vstd::arithmetic::div_mod::lemma_fundamental_div_mod(d, res);
        vstd::arithmetic::div_mod::lemma_mod_bound(d, res);
        assert(ad * res <= d < (ad + 1) * res) by (nonlinear_arith)
            requires
                d == res * ad + d % res,
                0 <= d % res < res,
        ;
    }
}

/// A scheduled deadline is handed out by the first tick whose advance reaches
/// `next_drain(deadline)`, the deadline's own advance when it lies within one
/// rotation and otherwise the next pass over its slot, at most one rotation
/// ahead: a tick before it leaves the deadline's slot untouched; a tick at or
/// after it hands out something, and either it drains the deadline's slot,
/// handing out all its items, or it drains an earlier due slot, reports more
/// work and leaves the deadline's slot for the next tick. This holds also
/// when the tick finds the wheel more than one rotation behind.
pub proof fn lemma_tick_hands_out_deadline<T>(
    w: TimerWheel<T>,
    deadline: u64,
    now: u64,
    n: TimerWheel<T>,
    drained: Option<Vec<T>>,
    more: bool,
)
    requires
        w.wf(),
        w.pending()[w.slot_of(deadline)].len() > 0,
        w.ticked(now, n, drained, more),
    ensures
        w.advance_at(now) < w.next_drain(deadline) ==> n.pending()[w.slot_of(deadline)]
            == w.pending()[w.slot_of(deadline)],
        w.advance_at(now) >= w.next_drain(deadline) ==> {
            &&& drained is Some
            &&& {
                ||| n.pending()[w.slot_of(deadline)].len() == 0 && drained.unwrap()@ == w.pending()[w.slot_of(
                    deadline,
                )]
                ||| more && n.pending()[w.slot_of(deadline)] == w.pending()[w.slot_of(deadline)]
            }
        },
{
    let m = w.slot_count() as int;
    let la = w.drained_advance() as int;
    let nd = w.next_drain(deadline);
    let adv = w.advance_at(now);
    let lo = w.catch_up_floor(now);
    let s = w.slot_of(deadline);
    lemma_schedule_tick_round_trip(w, deadline);
    assert(0 <= s < m) by {
        vstd::arithmetic::div_mod::lemma_mod_bound(w.advance_at(deadline) - 1, m);
    }
    if adv < nd {
        assert(lo == la);
        if let Some(v) = drained {
            let d = n.drained_advance() as int;
            assert(la < d <= adv);
            assert(w.slot_for_advance(d) != s);
        }
    } else {
        lemma_due_slot_stays_due(w, now, n, drained, more, nd);
        if let Some(v) = drained {
            let d = n.drained_advance() as int;
            if w.slot_for_advance(d) != s {
                let b = choose|b: int| d < b <= n.advance_at(now) && #[trigger] n.slot_for_advance(b) == s;
                assert(d < adv);
            }
        }
    }
}

/// A non-empty slot due at an advance up to that of `now` makes the tick
/// hand something out, and is either the slot it drains or still due after
/// it.
pub proof fn lemma_due_slot_stays_due<T>(
    w: TimerWheel<T>,
    now: u64,
    n: TimerWheel<T>,
    drained: Option<Vec<T>>,
    more: bool,
    a: int,
)
    requires
        w.wf(),
        w.ticked(now, n, drained, more),
        w.drained_advance() < a <= w.advance_at(now),
        w.pending()[w.slot_for_advance(a)].len() > 0,
    ensures
        drained is Some,
        w.slot_for_advance(a) == n.slot_for_advance(n.drained_advance() as int) || exists|b: int|
            n.drained_advance() < b <= n.advance_at(now) && #[trigger] n.slot_for_advance(b)
                == w.slot_for_advance(a),
{
    let m = w.slot_count() as int;
    let la = w.drained_advance() as int;
    let adv = w.advance_at(now);
    let lo = w.catch_up_floor(now);
    let s = w.slot_for_advance(a);
    let a1 = if lo == la {
        a
    } else {
        lo + 1 + (a - 1 - lo) % m
    };
    if lo != la {
        vstd::arithmetic::div_mod::lemma_mod_bound(a - 1 - lo, m);
        vstd::arithmetic::div_mod::lemma_add_mod_noop_right(lo, a - 1 - lo, m);
    }
    assert(lo < a1 <= adv);
    assert(w.slot_for_advance(a1) == s);
    if drained is None {
        assert(w.pending()[w.slot_for_advance(a1)].len() == 0);
    } else {
        let d = n.drained_advance() as int;
        if w.slot_for_advance(d) != s {
            if a1 < d {
                assert(w.pending()[w.slot_for_advance(a1)].len() == 0);
            }
            assert(d < a1);
            assert(n.slot_for_advance(a1) == s);
        }
    }
}

/// A wheel left without ticks for more than one rotation resumes exactly one
/// rotation behind `now`: the next tick inspects the `N` advances up to
/// `advance_at(now)`, so the oldest overdue advances are skipped rather than
/// replayed, and the slot of every deadline is among those inspected.
pub proof fn lemma_lapped_wheel_catches_up<T>(w: TimerWheel<T>, now: u64)
    requires
        w.wf(),
        w.advance_at(now) > w.drained_advance() + w.slot_count(),
    ensures
        w.catch_up_floor(now) == w.advance_at(now) - w.slot_count(),
        w.catch_up_floor(now) > w.drained_advance(),
        forall|d: u64|
            #![trigger w.slot_of(d)]
            ({
                let a = w.catch_up_floor(now) + 1 + (w.slot_of(d) - w.catch_up_floor(now)) % (
                w.slot_count() as int);
                w.catch_up_floor(now) < a <= w.advance_at(now) && w.slot_for_advance(a) == w.slot_of(d)
            }),
{
    let m = w.slot_count() as int;
    let lo = w.catch_up_floor(now);
    assert forall|d: u64|
        #![trigger w.slot_of(d)]
        ({
            let a = w.catch_up_floor(now) + 1 + (w.slot_of(d) - w.catch_up_floor(now)) % (
            w.slot_count() as int);
            w.catch_up_floor(now) < a <= w.advance_at(now) && w.slot_for_advance(a) == w.slot_of(d)
        }) by {
        let s = w.slot_of(d);
        vstd::arithmetic::div_mod::lemma_mod_bound(w.advance_at(d) - 1, m);
        let a = lo + 1 + (s - lo) % m;
        vstd::arithmetic::div_mod::lemma_mod_bound(s - lo, m);
        vstd::arithmetic::div_mod::lemma_add_mod_noop_right(lo, s - lo, m);
        vstd::arithmetic::div_mod::lemma_small_mod(s as nat, m as nat);
        assert(w.slot_for_advance(a) == s);
    }
}

} // verus!
