//! The switches by which a simulation is started, stopped and restarted.

use vstd::prelude::*;

verus! {

/// The switches of a simulation. Everyone who holds them shares one value, so that their calls come in
/// one order.
#[derive(Debug)]
pub struct SimControl {
    pub running: bool,
    pub restart_requested: bool,
}

/// A call that changes the switches.
#[derive(Debug, Clone, Copy, PartialEq, Eq, Structural)]
pub enum SwitchCall {
    Run,
    Stop,
    Restart,
    TakeRestart,
}

impl SimControl {
    /// The switches as they are at first.
    pub open spec fn initial(start_running: bool) -> SimControl {
        SimControl { running: start_running, restart_requested: false }
    }

    /// The switches after a call.
    pub open spec fn after(self, call: SwitchCall) -> SimControl {
        match call {
            SwitchCall::Run => SimControl { running: true, ..self },
            SwitchCall::Stop => SimControl { running: false, ..self },
            SwitchCall::Restart => SimControl { running: true, restart_requested: true },
            SwitchCall::TakeRestart => SimControl { restart_requested: false, ..self },
        }
    }

    /// The switches after a series of calls.
    pub open spec fn after_all(self, calls: Seq<SwitchCall>) -> SimControl
        decreases calls.len(),
    {
        if calls.len() == 0 {
            self
        } else {
            self.after_all(calls.drop_last()).after(calls.last())
        }
    }
}

/// The call at `i` asks for a restart, and none takes it later.
pub open spec fn restart_at(calls: Seq<SwitchCall>, i: int) -> bool {
    &&& 0 <= i < calls.len()
    &&& calls[i] == SwitchCall::Restart
    &&& forall|k: int| i < k < calls.len() ==> (#[trigger] calls[k]) != SwitchCall::TakeRestart
}

/// A restart was asked for since one was last taken.
pub open spec fn restart_pending(calls: Seq<SwitchCall>) -> bool {
    exists|i: int| restart_at(calls, i)
}

/// A restart is there to be taken exactly if it was asked for since one was last taken: all requests up
/// to then are taken by one call, and the next one finds none.
pub proof fn law_restart_is_taken_once(start_running: bool, calls: Seq<SwitchCall>)
    ensures
        SimControl::initial(start_running).after_all(calls).restart_requested <==> restart_pending(calls),
        !SimControl::initial(start_running).after_all(calls.push(SwitchCall::TakeRestart)).restart_requested,
        SimControl::initial(start_running).after_all(calls.push(SwitchCall::TakeRestart)).running
            == SimControl::initial(start_running).after_all(calls).running,
{
    let taken = calls.push(SwitchCall::TakeRestart);
    lemma_restart_pending(start_running, calls);
    assert(taken.drop_last() =~= calls);
    assert(taken.last() == SwitchCall::TakeRestart);
}

proof fn lemma_restart_pending(start_running: bool, calls: Seq<SwitchCall>)
    ensures
        SimControl::initial(start_running).after_all(calls).restart_requested <==> restart_pending(calls),
    decreases calls.len(),
{
    if calls.len() > 0 {
        lemma_restart_pending(start_running, calls.drop_last());
        lemma_pending_step(calls);
    }
}

/// The last call decides, or leaves it to those before.
proof fn lemma_pending_step(calls: Seq<SwitchCall>)
    requires
        calls.len() > 0,
    ensures
        restart_pending(calls) <==> calls.last() == SwitchCall::Restart || (calls.last() != SwitchCall::TakeRestart
            && restart_pending(calls.drop_last())),
{
    let before = calls.drop_last();
    let n = calls.len() - 1;
    if calls[n] == SwitchCall::Restart {
        assert(restart_at(calls, n));
    }
    if restart_pending(calls) && calls[n] != SwitchCall::Restart {
        let i = choose|i: int| restart_at(calls, i);
        assert(calls[n] != SwitchCall::TakeRestart);
        assert(before[i] == calls[i]);
        assert forall|k: int| i < k < before.len() implies (#[trigger] before[k]) != SwitchCall::TakeRestart by {
            assert(before[k] == calls[k]);
        }
        assert(restart_at(before, i));
    }
    if restart_pending(before) && calls[n] != SwitchCall::TakeRestart {
        let i = choose|i: int| restart_at(before, i);
        assert(before[i] == calls[i]);
        assert forall|k: int| i < k < calls.len() implies (#[trigger] calls[k]) != SwitchCall::TakeRestart by {
            if k < n {
                assert(before[k] == calls[k]);
            }
        }
        assert(restart_at(calls, i));
    }
}

/// Stopping does not cancel a restart that was asked for, nor does running ask for one.
pub proof fn law_stop_keeps_restart(control: SimControl)
    ensures
        !control.after(SwitchCall::Stop).running,
        control.after(SwitchCall::Stop).restart_requested == control.restart_requested,
        control.after(SwitchCall::Run).restart_requested == control.restart_requested,
        control.after(SwitchCall::Restart).after(SwitchCall::Stop).restart_requested,
{
}

/// One round of the simulation.
#[derive(Debug, Clone, Copy, PartialEq, Eq, Structural)]
pub struct Round {
    /// Build the network anew.
    pub restart: bool,
    /// Let the network tick.
    pub tick: bool,
}

impl SimControl {
    pub fn new(start_running: bool) -> (c: Self)
        ensures
            c == SimControl::initial(start_running),
    {
        SimControl { running: start_running, restart_requested: false }
    }

    pub fn run(&mut self)
        ensures
            *final(self) == old(self).after(SwitchCall::Run),
    {
        self.running = true;
    }

    pub fn stop(&mut self)
        ensures
            *final(self) == old(self).after(SwitchCall::Stop),
    {
        self.running = false;
    }

    /// Asks for a fresh network, and for the simulation to run.
    pub fn restart(&mut self)
        ensures
            *final(self) == old(self).after(SwitchCall::Restart),
    {
        self.restart_requested = true;
        self.running = true;
    }

    pub fn is_running(&self) -> (b: bool)
        ensures
            b == self.running,
    {
        self.running
    }

    /// What the simulation does next, given whether it is over: a restart comes first, and a network
    /// that is over does not tick.
    pub fn next_round(&mut self, finished: bool) -> (round: Round)
        ensures
            round == (Round {
                restart: old(self).restart_requested,
                tick: old(self).running && (old(self).restart_requested || !finished),
            }),
            *final(self) == old(self).after(SwitchCall::TakeRestart),
    {
        let restart = self.take_restart();
        Round { restart, tick: self.is_running() && (restart || !finished) }
    }

    /// Whether a restart was asked for; the request is then taken off.
    pub fn take_restart(&mut self) -> (b: bool)
        ensures
            b == old(self).restart_requested,
            *final(self) == old(self).after(SwitchCall::TakeRestart),
    {
        let asked: bool = self.restart_requested;
        self.restart_requested = false;
        asked
    }
}

} // verus!
