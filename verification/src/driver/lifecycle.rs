//! Whether the driver runs, what is under way, and which endpoints take work.

use crate::driver::types::{DriverError, ErrorView};
use crate::table::{Keyed, Table};
use crate::value::{text_view, Identity};
use vstd::prelude::*;

verus! {

/// Whether the driver runs.
#[derive(Clone, Copy, Debug, PartialEq, Eq, Structural)]
pub enum DriverLifecycle {
    Running,
    ShuttingDown,
    Stopped,
}

/// Whether the driver runs, what is under way, and which endpoints take work.
#[derive(Debug)]
pub struct Lifecycle {
    state: DriverLifecycle,
    shutdown_error: Option<String>,
    in_flight_dispatches: usize,
    endpoint_activities: Table<Identity, usize>,
    closed_endpoints: Table<Identity, ()>,
}

/// Whether the driver runs, how shutting down failed, how many dispatches are in
/// flight, how many activities each busy endpoint has, and which endpoints are
/// closed.
pub struct LifecycleView {
    pub state: DriverLifecycle,
    pub shutdown_error: Option<Seq<char>>,
    pub in_flight_dispatches: nat,
    pub endpoint_activities: Map<u64, usize>,
    pub closed_endpoints: Set<u64>,
}

impl LifecycleView {
    /// Whether nothing is under way.
    pub open spec fn idle(self) -> bool {
        self.in_flight_dispatches == 0 && self.endpoint_activities.dom() == Set::<u64>::empty()
    }

    /// How many activities an endpoint has.
    pub open spec fn activities(self, endpoint: u64) -> nat {
        if self.endpoint_activities.contains_key(endpoint) {
            self.endpoint_activities[endpoint] as nat
        } else {
            0
        }
    }

    /// What every operation keeps: an endpoint on record has some activity.
    pub open spec fn wf(self) -> bool {
        forall|e: u64| #[trigger]
            self.endpoint_activities.contains_key(e) ==> self.endpoint_activities[e] > 0
    }

    /// Why an endpoint takes no work, where it takes none.
    pub open spec fn refusal(self, endpoint: u64) -> Option<ErrorView> {
        if self.state !is Running {
            Some(ErrorView::DriverStopped)
        } else if self.closed_endpoints.contains(endpoint) {
            Some(ErrorView::EndpointClosed(endpoint))
        } else {
            None
        }
    }

    /// The driver once it is stopped for good.
    pub open spec fn stopped(self, error: Option<Seq<char>>) -> LifecycleView {
        LifecycleView { state: DriverLifecycle::Stopped, shutdown_error: error, ..self }
    }

    /// What shutting down came to.
    pub open spec fn shutdown_outcome(self) -> Result<(), ErrorView> {
        match self.shutdown_error {
            Some(text) => Err(ErrorView::Join(text)),
            None => Ok(()),
        }
    }
}

impl View for Lifecycle {
    type V = LifecycleView;

    closed spec fn view(&self) -> LifecycleView {
        LifecycleView {
            state: self.state,
            shutdown_error: text_view(self.shutdown_error),
            in_flight_dispatches: self.in_flight_dispatches as nat,
            endpoint_activities: self.endpoint_activities@,
            closed_endpoints: self.closed_endpoints@.dom(),
        }
    }
}

/// The outcome of a step that may be refused.
pub open spec fn outcome_view<T>(result: Result<T, DriverError>) -> Result<T, ErrorView> {
    match result {
        Ok(value) => Ok(value),
        Err(error) => Err(error@),
    }
}

/// What asking the driver to shut down comes to.
#[derive(Debug)]
pub enum ShutdownStart {
    /// The caller shuts the driver down.
    Start,
    /// Another caller does; wait for it.
    Wait,
    /// The driver is stopped already.
    Complete(Result<(), DriverError>),
}

impl Lifecycle {
    /// A driver that runs, with nothing under way.
    pub fn new() -> (lifecycle: Lifecycle)
        ensures
            lifecycle@ == (LifecycleView {
                state: DriverLifecycle::Running,
                shutdown_error: None,
                in_flight_dispatches: 0,
                endpoint_activities: Map::empty(),
                closed_endpoints: Set::empty(),
            }),
            lifecycle@.wf(),
    {
        let lifecycle = Lifecycle {
            state: DriverLifecycle::Running,
            shutdown_error: None,
            in_flight_dispatches: 0,
            endpoint_activities: Table::new(),
            closed_endpoints: Table::new(),
        };
        assert(lifecycle@.closed_endpoints =~= Set::empty());
        lifecycle
    }

    /// Whether the driver runs.
    pub fn is_running(&self) -> (running: bool)
        ensures
            running == self@.state is Running,
    {
        matches!(self.state, DriverLifecycle::Running)
    }

    /// Whether the driver is stopped.
    pub fn is_shutdown(&self) -> (stopped: bool)
        ensures
            stopped == self@.state is Stopped,
    {
        matches!(self.state, DriverLifecycle::Stopped)
    }

    /// Refuses unless the driver runs.
    pub fn ensure_running(&self) -> (result: Result<(), DriverError>)
        ensures
            outcome_view(result) == if self@.state is Running {
                Ok::<(), ErrorView>(())
            } else {
                Err(ErrorView::DriverStopped)
            },
    {
        if self.is_running() {
            Ok(())
        } else {
            Err(DriverError::DriverStopped)
        }
    }

    /// Refuses unless the driver runs and the endpoint is not closed.
    pub fn ensure_endpoint_open(&self, endpoint: Identity) -> (result: Result<(), DriverError>)
        ensures
            outcome_view(result) == match self@.refusal(endpoint@) {
                Some(error) => Err(error),
                None => Ok::<(), ErrorView>(()),
            },
    {
        if !self.is_running() {
            return Err(DriverError::DriverStopped);
        }
        if self.closed_endpoints.contains(&endpoint) {
            return Err(DriverError::EndpointClosed(endpoint));
        }
        Ok(())
    }

    /// Whether an endpoint is closed.
    pub fn is_closed(&self, endpoint: &Identity) -> (closed: bool)
        ensures
            closed == self@.closed_endpoints.contains(endpoint@),
    {
        self.closed_endpoints.contains(endpoint)
    }

    /// Lets an endpoint take no more work.
    pub fn mark_endpoint_closed(&mut self, endpoint: Identity)
        requires
            old(self)@.wf(),
        ensures
            final(self)@.wf(),
            final(self)@ == (LifecycleView {
                closed_endpoints: old(self)@.closed_endpoints.insert(endpoint@),
                ..old(self)@
            }),
    {
        let _ = self.closed_endpoints.insert(endpoint, ());
        assert(self@.closed_endpoints =~= old(self)@.closed_endpoints.insert(endpoint@));
    }

    /// Lets an endpoint take work again.
    pub fn mark_endpoint_open(&mut self, endpoint: &Identity)
        requires
            old(self)@.wf(),
        ensures
            final(self)@.wf(),
            final(self)@ == (LifecycleView {
                closed_endpoints: old(self)@.closed_endpoints.remove(endpoint@),
                ..old(self)@
            }),
    {
        let _ = self.closed_endpoints.remove(endpoint);
        assert(self@.closed_endpoints =~= old(self)@.closed_endpoints.remove(endpoint@));
    }

    /// Begins a dispatch.
    pub fn begin_dispatch(&mut self) -> (result: Result<(), DriverError>)
        requires
            old(self)@.wf(),
            old(self)@.in_flight_dispatches < usize::MAX,
        ensures
            final(self)@.wf(),
            if old(self)@.state is Running {
                &&& result is Ok
                &&& final(self)@ == (LifecycleView {
                    in_flight_dispatches: old(self)@.in_flight_dispatches + 1,
                    ..old(self)@
                })
            } else {
                &&& outcome_view(result) == Err::<(), _>(ErrorView::DriverStopped)
                &&& final(self)@ == old(self)@
            },
    {
        if !self.is_running() {
            return Err(DriverError::DriverStopped);
        }
        self.in_flight_dispatches = self.in_flight_dispatches + 1;
        Ok(())
    }

    /// Ends a dispatch, and says whether those who wait for the driver to become
    /// idle are to be woken.
    pub fn end_dispatch(&mut self) -> (wake: bool)
        requires
            old(self)@.wf(),
        ensures
            final(self)@.wf(),
            final(self)@ == (LifecycleView {
                in_flight_dispatches: if old(self)@.in_flight_dispatches > 0 {
                    (old(self)@.in_flight_dispatches - 1) as nat
                } else {
                    0
                },
                ..old(self)@
            }),
            wake == (final(self)@.in_flight_dispatches == 0),
    {
        self.in_flight_dispatches = self.in_flight_dispatches.saturating_sub(1);
        self.in_flight_dispatches == 0
    }

    /// Begins an activity of an endpoint.
    pub fn begin_endpoint_activity(&mut self, endpoint: Identity) -> (result: Result<
        (),
        DriverError,
    >)
        requires
            old(self)@.wf(),
            old(self)@.activities(endpoint@) < usize::MAX,
        ensures
            final(self)@.wf(),
            match old(self)@.refusal(endpoint@) {
                Some(error) => {
                    &&& outcome_view(result) == Err::<(), _>(error)
                    &&& final(self)@ == old(self)@
                },
                None => {
                    &&& result is Ok
                    &&& final(self)@ == (LifecycleView {
                        endpoint_activities: old(self)@.endpoint_activities.insert(
                            endpoint@,
                            (old(self)@.activities(endpoint@) + 1) as usize,
                        ),
                        ..old(self)@
                    })
                },
            },
    {
        match self.ensure_endpoint_open(endpoint) {
            Err(error) => Err(error),
            Ok(()) => {
                let current: usize = match self.endpoint_activities.get(&endpoint) {
                    Some(count) => *count,
                    None => 0,
                };
                let _ = self.endpoint_activities.insert(endpoint, current + 1);
                Ok(())
            },
        }
    }

    /// Ends an activity of an endpoint, and says whether those who wait for the
    /// endpoint, and those who wait for the driver, are to be woken.
    pub fn end_endpoint_activity(&mut self, endpoint: &Identity) -> (wake: (bool, bool))
        requires
            old(self)@.wf(),
        ensures
            final(self)@.wf(),
            final(self)@ == (LifecycleView {
                endpoint_activities: if old(self)@.activities(endpoint@) <= 1 {
                    old(self)@.endpoint_activities.remove(endpoint@)
                } else {
                    old(self)@.endpoint_activities.insert(
                        endpoint@,
                        (old(self)@.activities(endpoint@) - 1) as usize,
                    )
                },
                ..old(self)@
            }),
            wake.0 == (old(self)@.activities(endpoint@) == 1),
            wake.1 == (old(self)@.activities(endpoint@) == 1 && final(self)@.idle()),
    {
        let current: usize = match self.endpoint_activities.get(endpoint) {
            Some(count) => *count,
            None => {
                assert(self@.endpoint_activities =~= self@.endpoint_activities.remove(endpoint@));
                return (false, false);
            },
        };
        if current > 1 {
            let _ = self.endpoint_activities.insert(*endpoint, current - 1);
            return (false, false);
        }
        let _ = self.endpoint_activities.remove(endpoint);
        let driver_idle: bool = self.is_idle();
        (true, driver_idle)
    }

    /// Whether nothing is under way.
    pub fn is_idle(&self) -> (idle: bool)
        ensures
            idle == self@.idle(),
    {
        let busy: usize = self.endpoint_activities.len();
        proof {
            let dom = self@.endpoint_activities.dom();
            if dom.len() == 0 {
                assert(dom =~= Set::empty());
            }
        }
        self.in_flight_dispatches == 0 && busy == 0
    }

    /// Whether an endpoint has no activity.
    pub fn is_endpoint_idle(&self, endpoint: &Identity) -> (idle: bool)
        requires
            self@.wf(),
        ensures
            idle == (self@.activities(endpoint@) == 0),
    {
        !self.endpoint_activities.contains(endpoint)
    }

    /// Begins to shut the driver down, where nobody has.
    pub fn begin_shutdown(&mut self) -> (start: ShutdownStart)
        requires
            old(self)@.wf(),
        ensures
            final(self)@.wf(),
            match old(self)@.state {
                DriverLifecycle::Running => start is Start && final(self)@ == (LifecycleView {
                    state: DriverLifecycle::ShuttingDown,
                    ..old(self)@
                }),
                DriverLifecycle::ShuttingDown => start is Wait && final(self)@ == old(self)@,
                DriverLifecycle::Stopped => {
                    &&& start matches ShutdownStart::Complete(result)
                    &&& outcome_view(result) == old(self)@.shutdown_outcome()
                    &&& final(self)@ == old(self)@
                },
            },
    {
        match self.state {
            DriverLifecycle::Running => {
                self.state = DriverLifecycle::ShuttingDown;
                ShutdownStart::Start
            },
            DriverLifecycle::ShuttingDown => ShutdownStart::Wait,
            DriverLifecycle::Stopped => ShutdownStart::Complete(self.shutdown_result()),
        }
    }

    /// Stops the driver for good.
    pub fn finish_shutdown(&mut self, failures: ShutdownFailures) -> (result: Result<
        (),
        DriverError,
    >)
        requires
            old(self)@.wf(),
        ensures
            final(self)@.wf(),
            final(self)@ == old(self)@.stopped(failures.decisive()),
            outcome_view(result) == final(self)@.shutdown_outcome(),
    {
        self.shutdown_error = failures.into_decisive();
        self.state = DriverLifecycle::Stopped;
        self.shutdown_result()
    }

    /// What shutting down came to.
    pub fn shutdown_result(&self) -> (result: Result<(), DriverError>)
        ensures
            outcome_view(result) == self@.shutdown_outcome(),
    {
        match &self.shutdown_error {
            Some(text) => Err(DriverError::Join(text.clone())),
            None => Ok(()),
        }
    }
}

/// What went wrong while the driver shut down.
#[derive(Debug)]
pub struct ShutdownFailures {
    pub worker: Option<String>,
    pub persistence: Option<String>,
    pub join: Option<String>,
}

impl ShutdownFailures {
    /// The failure that is reported: of a worker or an endpoint before one of
    /// storage, and that before one of the dispatcher.
    pub open spec fn decisive(self) -> Option<Seq<char>> {
        if self.worker is Some {
            text_view(self.worker)
        } else if self.persistence is Some {
            text_view(self.persistence)
        } else {
            text_view(self.join)
        }
    }

    /// Nothing went wrong.
    pub fn none() -> (failures: ShutdownFailures)
        ensures
            failures.decisive() is None,
            failures.worker is None,
            failures.persistence is None,
            failures.join is None,
    {
        ShutdownFailures { worker: None, persistence: None, join: None }
    }

    /// Notes a failure of a worker or an endpoint; the last one counts.
    pub fn note_worker(&mut self, text: String)
        ensures
            final(self).decisive() == Some(text@),
            final(self).persistence == old(self).persistence,
            final(self).join == old(self).join,
    {
        self.worker = Some(text);
    }

    fn into_decisive(self) -> (text: Option<String>)
        ensures
            text_view(text) == self.decisive(),
    {
        match self.worker {
            Some(text) => Some(text),
            None => match self.persistence {
                Some(text) => Some(text),
                None => self.join,
            },
        }
    }
}

/// A driver that has begun to shut down never runs again, and an endpoint that is
/// closed takes no work while it is.
pub proof fn law_stopped_driver_takes_no_work(lifecycle: LifecycleView, endpoint: u64)
    requires
        lifecycle.state !is Running || lifecycle.closed_endpoints.contains(endpoint),
    ensures
        lifecycle.refusal(endpoint) is Some,
        lifecycle.state !is Running ==> lifecycle.refusal(endpoint) == Some(
            ErrorView::DriverStopped,
        ),
{
}

} // verus!
