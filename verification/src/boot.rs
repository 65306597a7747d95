//! Boot ordering, fail-closed.
//!
//! The process may accept ingress connections only after the egress
//! channel stands. The sequencer is a two-state machine, `Closed` then
//! `Open`, with a single transition: a successful channel establishment.
//! A failed establishment directs immediate termination; there is no
//! retry and no path to `Open` that bypasses a success.
use vstd::prelude::*;

verus! {

/// The sequencer's state: `Closed` until the egress channel is
/// established, `Open` afterwards. No further transitions exist.
#[derive(Clone, Copy, PartialEq, Eq, Structural)]
pub enum BootState {
    Closed,
    Open,
}

/// What the runner must do next after reporting a channel-establishment
/// attempt: start the ingress listener, or terminate the process with the
/// fail-closed exit status.
#[derive(Clone, Copy, PartialEq, Eq, Structural)]
pub enum BootDirective {
    StartIngress,
    Terminate,
}

/// One step of the sequencer: only a successful establishment in `Closed`
/// reaches `Open`; a failure leaves the machine `Closed` forever.
pub open spec fn boot_step(s: BootState, channel_ok: bool) -> BootState {
    if s is Closed && channel_ok {
        BootState::Open
    } else if s is Closed {
        BootState::Closed
    } else {
        s
    }
}

/// The state after a whole run of channel-establishment reports, started
/// from `Closed`.
pub open spec fn boot_run(reports: Seq<bool>) -> BootState
    decreases reports.len(),
{
    if reports.len() == 0 {
        BootState::Closed
    } else {
        boot_step(boot_run(reports.drop_last()), reports.last())
    }
}

pub struct BootSequencer {
    pub state: BootState,
}

impl BootSequencer {
    /// A fresh sequencer: ingress is not yet allowed.
    pub fn new() -> (r: BootSequencer)
        ensures
            r.state is Closed,
    {
        BootSequencer { state: BootState::Closed }
    }

    /// Report the outcome of the one channel-establishment attempt.
    /// Success moves the machine to `Open` and directs the runner to
    /// start ingress; failure keeps it `Closed` and directs termination.
    pub fn on_channel_result(&mut self, channel_ok: bool) -> (r: BootDirective)
        ensures
            final(self).state == boot_step(old(self).state, channel_ok),
            r is StartIngress <==> (old(self).state is Closed && channel_ok),
            r is StartIngress <==> final(self).may_accept_ingress_spec()
                && !old(self).may_accept_ingress_spec(),
    {
        match self.state {
            BootState::Closed => {
                if channel_ok {
                    self.state = BootState::Open;
                    BootDirective::StartIngress
                } else {
                    BootDirective::Terminate
                }
            },
            BootState::Open => BootDirective::Terminate,
        }
    }

    pub open spec fn may_accept_ingress_spec(&self) -> bool {
        self.state is Open
    }

    /// Whether the ingress listener may bind and accept: true only in
    /// `Open`, which only a successful establishment reaches.
    pub fn may_accept_ingress(&self) -> (r: bool)
        ensures
            r == self.may_accept_ingress_spec(),
    {
        match self.state {
            BootState::Open => true,
            BootState::Closed => false,
        }
    }
}

/// Boot ordering: if the egress channel is never successfully
/// established, no run of the sequencer ever allows ingress — the machine
/// stays `Closed` under every sequence of failed reports.
pub proof fn lemma_no_channel_no_ingress(reports: Seq<bool>)
    requires
        forall|i: int| 0 <= i < reports.len() ==> !reports[i],
    ensures
        boot_run(reports) is Closed,
    decreases reports.len(),
{
    if reports.len() > 0 {
        lemma_no_channel_no_ingress(reports.drop_last());
    }
}

/// Conversely, a run that ends `Open` contains a successful
/// establishment report: ingress activity implies the channel stood.
pub proof fn lemma_ingress_implies_channel(reports: Seq<bool>)
    requires
        boot_run(reports) is Open,
    ensures
        exists|i: int| 0 <= i < reports.len() && reports[i],
    decreases reports.len(),
{
    if reports.len() > 0 {
        if reports.last() {
            assert(reports[reports.len() - 1]);
        } else {
            lemma_ingress_implies_channel(reports.drop_last());
            let i = choose|i: int| 0 <= i < reports.drop_last().len() && reports.drop_last()[i];
            assert(reports[i]);
        }
    }
}

} // verus!
