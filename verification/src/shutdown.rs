//! Arbitration of the shutdown byebye burst: however often the shutdown
//! signal fires, exactly one byebye pass is performed.

use vstd::prelude::*;

verus! {

/// One observation of the shutdown signal: the first component says
/// whether to send the byebye burst now; the second is the new state
/// (`true` once the burst is taken).
pub open spec fn spec_gate_step(byebye_done: bool) -> (bool, bool) {
    (!byebye_done, true)
}

/// Gates the terminal byebye pass.
pub struct ShutdownGate {
    pub byebye_done: bool,
}

impl ShutdownGate {
    /// A fresh gate: no byebye pass has been claimed.
    pub fn new() -> (r: ShutdownGate)
        ensures
            !r.byebye_done,
    {
        ShutdownGate { byebye_done: false }
    }

    /// Observes the shutdown signal once. Returns whether the caller must
    /// perform the byebye pass: true on the first observation, never
    /// again.
    pub fn claim_byebye(&mut self) -> (r: bool)
        ensures
            r == spec_gate_step(old(self).byebye_done).0,
            final(self).byebye_done == spec_gate_step(old(self).byebye_done).1,
    {
        let r = !self.byebye_done;
        self.byebye_done = true;
        r
    }
}

/// Firing the shutdown signal twice yields exactly one byebye pass: of any
/// two consecutive observations starting from a fresh gate, the first
/// claims the pass and the second does not.
pub proof fn lemma_shutdown_idempotent()
    ensures
        spec_gate_step(false).0 == true,
        spec_gate_step(spec_gate_step(false).1).0 == false,
{
}

/// More generally, from any state, two consecutive observations take the
/// byebye burst at most once, and from the initial state at least once.
pub proof fn lemma_byebye_once(s0: bool)
    ensures
        !(spec_gate_step(s0).0 && spec_gate_step(spec_gate_step(s0).1).0),
        !s0 ==> (spec_gate_step(s0).0 || spec_gate_step(spec_gate_step(s0).1).0),
{
}

} // verus!
