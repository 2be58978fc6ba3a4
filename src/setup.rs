//! Decisions taken when a core's pipelines are set up, and the pacing of the
//! task that services the kernel interface.
use vstd::prelude::*;

verus! {

/// The tasks a core runs for one physical port.
#[derive(Clone, Copy, Debug, PartialEq, Eq, Structural)]
pub struct PortTasks {
    /// the task servicing the kernel interface's requests
    pub kni_handler: bool,
    /// the proxy pipeline over the port's receive queue
    pub proxy_pipeline: bool,
}

/// The tasks for a port, given whether the core has a receive queue on it
/// and on its kernel interface, whether that interface is a native one, and
/// the queue's index. The request handler runs once per port, on the core
/// owning its first queue; a pipeline needs both queues.
pub fn port_tasks(has_port_queue: bool, has_kni_queue: bool, kni_is_native: bool, rxq: u16) -> (r:
    PortTasks)
    ensures
        r.kni_handler == (has_port_queue && has_kni_queue && kni_is_native && rxq == 0),
        r.proxy_pipeline == (has_port_queue && has_kni_queue),
{
    PortTasks {
        kni_handler: has_port_queue && has_kni_queue && kni_is_native && rxq == 0,
        proxy_pipeline: has_port_queue && has_kni_queue,
    }
}

/// When the kernel-interface task last ran, and how often it is to run.
pub struct KniTimer {
    pub last_tick: u64,
    pub interval: u64,
}

impl KniTimer {
    pub fn new(interval: u64, now: u64) -> (t: KniTimer)
        ensures
            t.last_tick == now,
            t.interval == interval,
    {
        KniTimer { last_tick: now, interval }
    }

    /// Whether the task is due at cycle count `now`: a full interval has
    /// passed since it last ran. A due task is recorded as run at `now`.
    pub fn due(&mut self, now: u64) -> (r: bool)
        ensures
            r == (now >= old(self).last_tick && now - old(self).last_tick >= old(self).interval),
            final(self).interval == old(self).interval,
            final(self).last_tick == (if r {
                now
            } else {
                old(self).last_tick
            }),
    {
        if now >= self.last_tick && now - self.last_tick >= self.interval {
            self.last_tick = now;
            true
        } else {
            false
        }
    }
}

} // verus!
