//! The dispatcher: which requests may be issued now, what becomes of each
//! response, and when the run is over.
//!
//! The dispatcher performs no request itself. Its driver issues the requests
//! that `schedule` hands out and reports each response with `complete`, or a
//! failed request with `fail`; `finish` then gives the result of the run.
//! Time is counted in completions: a request is issued after so many
//! responses have arrived, and completes as the next one.

use crate::config::{ConfigError, FailurePolicy, RunConfig};
use crate::stats::{aggregate, summable, Stats};
use crate::verify::{comparable_form, comparable_text, has_comparable_form, verdict, verify};
use vstd::prelude::*;
use vstd::set_lib::*;

verus! {

/// Why a run ended without a result.
#[derive(Clone, Copy, Debug, PartialEq, Eq, Structural)]
pub enum RunError {
    /// The run was rejected before any request was issued.
    Config(ConfigError),
    /// A request failed in the network.
    Network,
    /// A response was not the expected one, and the first mismatch ends the
    /// run.
    Mismatch,
    /// Not every request has been answered yet.
    Unfinished,
}

/// Why the dispatcher refused an event.
#[derive(Clone, Copy, Debug, PartialEq, Eq, Structural)]
pub enum DispatchError {
    /// No request with this number is in flight.
    UnknownRequest,
    /// The run has been aborted.
    RunEnded,
}

/// A request in flight.
#[derive(Clone, Copy, Debug, PartialEq, Eq, Structural)]
pub struct Ticket {
    /// The number of the request, counted from 0 in the order of issue.
    pub id: usize,
    /// The number of responses that had arrived when it was issued.
    pub issued_after: usize,
}

/// The record of one answered request.
#[derive(Clone, Debug, PartialEq, Eq)]
pub struct RequestOutcome {
    /// The number of the request, counted from 0 in the order of issue.
    pub id: usize,
    /// The number of responses that had arrived when it was issued.
    pub issued_after: usize,
    /// The number of responses that had arrived once it was answered, its
    /// own included.
    pub completed_at: usize,
    /// The time from issue to the full body, in microseconds.
    pub elapsed_micros: u64,
    /// The body of the response.
    pub body: Vec<u8>,
    /// Whether the body was the expected one, where one was expected.
    pub matched: Option<bool>,
}

/// What the driver is to do next.
#[derive(Clone, Copy, Debug, PartialEq, Eq, Structural)]
pub enum Action {
    /// Issue the `count` requests numbered from `first` on.
    Issue { first: usize, count: usize },
    /// Wait for a request in flight to be answered.
    Wait,
    /// Every request has been answered: finish the run.
    Finish,
    /// The run has been aborted.
    Abort(RunError),
}

/// What the driver is to show of one response.
#[derive(Clone, Debug, PartialEq, Eq)]
pub struct Observation {
    /// Whether the body was the expected one, where one was expected.
    pub matched: Option<bool>,
    /// Whether the response counts as progress.
    pub progress: bool,
    /// The comparable form of the body, where none was expected and the
    /// body has one.
    pub echo: Option<String>,
}

/// The result of a run in which every request was answered.
#[derive(Clone, Debug, PartialEq, Eq)]
pub struct RunResult {
    /// The outcomes, in the order in which the responses arrived.
    pub outcomes: Vec<RequestOutcome>,
    /// The number of responses that were not the expected one.
    pub mismatches: usize,
    /// The statistics of the elapsed times, where they were asked for and
    /// fit in 128 bits.
    pub stats: Option<Stats>,
}

impl RunResult {
    /// Whether the run is a success: every response was the expected one,
    /// or none was expected.
    pub fn succeeded(&self) -> (success: bool)
        ensures
            success == (self.mismatches == 0),
    {
        self.mismatches == 0
    }
}

/// Whether a response counts as progress: every response does where no body
/// is expected, and only a matching one where one is.
pub open spec fn advances_progress(matched: Option<bool>) -> bool {
    matched != Some(false)
}

/// The number of outcomes whose body was not the expected one.
pub open spec fn mismatch_count(outcomes: Seq<RequestOutcome>) -> nat
    decreases outcomes.len(),
{
    if outcomes.len() == 0 {
        0
    } else {
        mismatch_count(outcomes.drop_last()) + if outcomes.last().matched == Some(false) {
            1nat
        } else {
            0nat
        }
    }
}

/// The elapsed times of the outcomes, in their order.
pub open spec fn elapsed_times(outcomes: Seq<RequestOutcome>) -> Seq<u64> {
    Seq::new(outcomes.len(), |i: int| outcomes[i].elapsed_micros)
}

/// The tickets of the `count` requests numbered from `first` on, all issued
/// after `done` responses.
pub open spec fn fresh_tickets(first: int, count: int, done: int) -> Seq<Ticket> {
    Seq::new(
        count as nat,
        |k: int| Ticket { id: (first + k) as usize, issued_after: done as usize },
    )
}

/// The place of the ticket numbered `id` among `tickets`, if it is there.
pub open spec fn place_of(tickets: Seq<Ticket>, id: usize) -> Option<int> {
    if exists|k: int| 0 <= k < tickets.len() && tickets[k].id == id {
        Some(choose|k: int| 0 <= k < tickets.len() && tickets[k].id == id)
    } else {
        None
    }
}

spec fn ticket_ok(t: Ticket, issued: int, done: int, limit: int) -> bool {
    &&& t.id < issued
    &&& t.issued_after <= done
    &&& t.issued_after <= t.id < t.issued_after + limit
    &&& limit == 1 ==> t.issued_after == done
}

spec fn outcome_ok(
    o: RequestOutcome,
    place: int,
    issued: int,
    limit: int,
    expected: Option<Seq<char>>,
) -> bool {
    &&& o.id < issued
    &&& o.completed_at == place + 1
    &&& o.issued_after <= place
    &&& o.issued_after <= o.id < o.issued_after + limit
    &&& limit == 1 ==> o.issued_after == place
    &&& o.matched == verdict(o.body@, expected)
}

proof fn lemma_mismatches_bounded(outcomes: Seq<RequestOutcome>)
    ensures
        mismatch_count(outcomes) <= outcomes.len(),
    decreases outcomes.len(),
{
    if outcomes.len() > 0 {
        lemma_mismatches_bounded(outcomes.drop_last());
    }
}

/// The place of the ticket numbered `id`, if it is among the tickets.
fn find(tickets: &Vec<Ticket>, id: usize) -> (place: Option<usize>)
    ensures
        match place {
            Some(k) => k < tickets@.len() && tickets@[k as int].id == id,
            None => forall|i: int| 0 <= i < tickets@.len() ==> (#[trigger] tickets@[i]).id != id,
        },
{
    let mut k: usize = 0;
    while k < tickets.len()
        invariant
            k <= tickets@.len(),
            forall|i: int| 0 <= i < k ==> (#[trigger] tickets@[i]).id != id,
        decreases tickets@.len() - k,
    {
        if tickets[k].id == id {
            return Some(k);
        }
        k = k + 1;
    }
    None
}

/// The elapsed times of the outcomes, in their order.
fn times_of(outcomes: &Vec<RequestOutcome>) -> (times: Vec<u64>)
    ensures
        times@ == elapsed_times(outcomes@),
{
    let mut times: Vec<u64> = Vec::new();
    let mut i: usize = 0;
    while i < outcomes.len()
        invariant
            i <= outcomes@.len(),
            times@ == elapsed_times(outcomes@.take(i as int)),
        decreases outcomes@.len() - i,
    {
        times.push(outcomes[i].elapsed_micros);
        i = i + 1;
    }
    assert(outcomes@.take(i as int) == outcomes@);
    times
}

/// The state of a run.
#[derive(Debug)]
pub struct Dispatcher {
    total: usize,
    limit: usize,
    policy: FailurePolicy,
    expected: Option<String>,
    report_stats: bool,
    issued: usize,
    in_flight: Vec<Ticket>,
    outcomes: Vec<RequestOutcome>,
    mismatches: usize,
    failure: Option<RunError>,
}

impl Dispatcher {
    /// What holds of every dispatcher: it never has more requests in flight
    /// than its limit, every issued request is in flight or answered, no two
    /// requests bear the same number, and every outcome records when its
    /// request was issued and answered and the verdict on its body.
    #[verifier::type_invariant]
    pub closed spec fn inv(&self) -> bool {
        &&& 1 <= self.limit <= self.total
        &&& self.issued <= self.total
        &&& self.in_flight@.len() <= self.limit
        &&& self.in_flight@.len() + self.outcomes@.len() == self.issued
        &&& self.mismatches == mismatch_count(self.outcomes@)
        &&& self.policy == FailurePolicy::FailFast && self.failure is None ==> self.mismatches
            == 0
        &&& forall|i: int|
            0 <= i < self.in_flight@.len() ==> ticket_ok(
                #[trigger] self.in_flight@[i],
                self.issued as int,
                self.outcomes@.len() as int,
                self.limit as int,
            )
        &&& forall|i: int, j: int|
            0 <= i < j < self.in_flight@.len() ==> (#[trigger] self.in_flight@[i]).id != (
            #[trigger] self.in_flight@[j]).id
        &&& forall|j: int|
            0 <= j < self.outcomes@.len() ==> outcome_ok(
                #[trigger] self.outcomes@[j],
                j,
                self.issued as int,
                self.limit as int,
                self.expected.deep_view(),
            )
        &&& forall|i: int, j: int|
            0 <= i < j < self.outcomes@.len() ==> (#[trigger] self.outcomes@[i]).id != (
            #[trigger] self.outcomes@[j]).id
        &&& forall|i: int, j: int|
            0 <= i < self.in_flight@.len() && 0 <= j < self.outcomes@.len() ==> (
            #[trigger] self.in_flight@[i]).id != (#[trigger] self.outcomes@[j]).id
    }

    /// The number of requests of the run.
    pub closed spec fn total(&self) -> int {
        self.total as int
    }

    /// The number of requests that may be in flight at once.
    pub closed spec fn limit(&self) -> int {
        self.limit as int
    }

    /// What is done about a mismatch.
    pub closed spec fn policy(&self) -> FailurePolicy {
        self.policy
    }

    /// The text that every response is expected to be, if any.
    pub closed spec fn expected(&self) -> Option<Seq<char>> {
        self.expected.deep_view()
    }

    /// Whether the result is to hold statistics.
    pub closed spec fn reports_stats(&self) -> bool {
        self.report_stats
    }

    /// The number of requests issued so far.
    pub closed spec fn issued(&self) -> int {
        self.issued as int
    }

    /// The requests in flight.
    pub closed spec fn in_flight(&self) -> Seq<Ticket> {
        self.in_flight@
    }

    /// The outcomes so far, in the order in which the responses arrived.
    pub closed spec fn outcomes(&self) -> Seq<RequestOutcome> {
        self.outcomes@
    }

    /// Why the run was aborted, if it was.
    pub closed spec fn failure(&self) -> Option<RunError> {
        self.failure
    }

    /// What the driver is to do in this state: nothing more once the run is
    /// aborted or every request is answered; else issue as many requests as
    /// are left and fit under the limit; else wait.
    pub open spec fn decision(&self) -> Action {
        if self.failure() is Some {
            Action::Abort(self.failure()->0)
        } else if self.outcomes().len() == self.total() {
            Action::Finish
        } else if self.in_flight().len() < self.limit() && self.issued() < self.total() {
            Action::Issue {
                first: self.issued() as usize,
                count: vstd::math::min(
                    self.limit() - self.in_flight().len(),
                    self.total() - self.issued(),
                ) as usize,
            }
        } else {
            Action::Wait
        }
    }

    /// Whether this dispatcher serves the same run as `other`.
    pub open spec fn same_run(&self, other: Dispatcher) -> bool {
        &&& self.total() == other.total()
        &&& self.limit() == other.limit()
        &&& self.policy() == other.policy()
        &&& self.expected() == other.expected()
        &&& self.reports_stats() == other.reports_stats()
    }

    /// A dispatcher for the run, with nothing issued yet. A run that asks
    /// for no request, or allows none in flight, is rejected: no dispatcher
    /// exists for it.
    pub fn new(config: RunConfig) -> (made: Result<Dispatcher, ConfigError>)
        ensures
            match made {
                Ok(d) => {
                    &&& config.fault() is None
                    &&& d.total() == config.requests
                    &&& d.limit() == config.width()
                    &&& d.policy() == config.policy
                    &&& d.expected() == config.expected.deep_view()
                    &&& d.reports_stats() == config.report_stats
                    &&& d.issued() == 0
                    &&& d.in_flight().len() == 0
                    &&& d.outcomes().len() == 0
                    &&& d.failure() is None
                },
                Err(e) => config.fault() == Some(e),
            },
    {
        match config.check() {
            Err(e) => Err(e),
            Ok(()) => {
                let limit: usize = if config.limit <= config.requests {
                    config.limit
                } else {
                    config.requests
                };
                Ok(
                    Dispatcher {
                        total: config.requests,
                        limit,
                        policy: config.policy,
                        expected: config.expected,
                        report_stats: config.report_stats,
                        issued: 0,
                        in_flight: Vec::new(),
                        outcomes: Vec::new(),
                        mismatches: 0,
                        failure: None,
                    },
                )
            },
        }
    }

    /// Decides what the driver is to do next, and puts the requests that
    /// it is told to issue in flight.
    pub fn schedule(self) -> (next: (Dispatcher, Action))
        ensures
            next.1 == self.decision(),
            next.0.same_run(self),
            next.0.outcomes() == self.outcomes(),
            next.0.failure() == self.failure(),
            match next.1 {
                Action::Issue { first, count } => {
                    &&& count >= 1
                    &&& next.0.issued() == self.issued() + count
                    &&& next.0.in_flight() == self.in_flight() + fresh_tickets(
                        first as int,
                        count as int,
                        self.outcomes().len() as int,
                    )
                },
                _ => next.0.issued() == self.issued() && next.0.in_flight() == self.in_flight(),
            },
    {
        proof {
            use_type_invariant(&self);
        }
        match self.failure {
            Some(e) => {
                return (self, Action::Abort(e));
            },
            None => {},
        }
        if self.outcomes.len() == self.total {
            return (self, Action::Finish);
        }
        if self.in_flight.len() < self.limit && self.issued < self.total {
            let room: usize = self.limit - self.in_flight.len();
            let left: usize = self.total - self.issued;
            let count: usize = if room <= left {
                room
            } else {
                left
            };
            let Dispatcher {
                total,
                limit,
                policy,
                expected,
                report_stats,
                issued,
                mut in_flight,
                outcomes,
                mismatches,
                failure,
            } = self;
            let done: usize = outcomes.len();
            let ghost before = in_flight@;
            let mut k: usize = 0;
            while k < count
                invariant
                    k <= count,
                    issued + count <= total,
                    in_flight@ == before + fresh_tickets(issued as int, k as int, done as int),
                decreases count - k,
            {
                in_flight.push(Ticket { id: issued + k, issued_after: done });
                k = k + 1;
            }
            proof {
                let after = in_flight@;
                let added = fresh_tickets(issued as int, count as int, done as int);
                assert forall|i: int| 0 <= i < after.len() implies ticket_ok(
                    #[trigger] after[i],
                    issued + count,
                    done as int,
                    limit as int,
                ) by {
                    if i < before.len() {
                        assert(after[i] == before[i]);
                    } else {
                        assert(after[i] == added[i - before.len()]);
                    }
                }
                assert forall|i: int, j: int| 0 <= i < j < after.len() implies (
                #[trigger] after[i]).id != (#[trigger] after[j]).id by {
                    if j < before.len() {
                        assert(after[i] == before[i] && after[j] == before[j]);
                    } else if i < before.len() {
                        assert(after[i] == before[i]);
                        assert(after[j] == added[j - before.len()]);
                    } else {
                        assert(after[i] == added[i - before.len()]);
                        assert(after[j] == added[j - before.len()]);
                    }
                }
                assert forall|i: int, j: int|
                    0 <= i < after.len() && 0 <= j < outcomes@.len() implies (
                #[trigger] after[i]).id != (#[trigger] outcomes@[j]).id by {
                    assert(outcome_ok(
                        outcomes@[j],
                        j,
                        issued as int,
                        limit as int,
                        expected.deep_view(),
                    ));
                    if i < before.len() {
                        assert(after[i] == before[i]);
                    } else {
                        assert(after[i] == added[i - before.len()]);
                    }
                }
            }
            let next = Dispatcher {
                total,
                limit,
                policy,
                expected,
                report_stats,
                issued: issued + count,
                in_flight,
                outcomes,
                mismatches,
                failure,
            };
            (next, Action::Issue { first: issued, count })
        } else {
            (self, Action::Wait)
        }
    }

    /// Records the response to the request numbered `id`, which took
    /// `elapsed_micros` and brought `body`. The response is compared with the
    /// expected body; a mismatch aborts the run where the first mismatch
    /// ends it. Nothing changes where the run is already aborted or no
    /// such request is in flight.
    pub fn complete(self, id: usize, elapsed_micros: u64, body: Vec<u8>) -> (next: (
        Dispatcher,
        Result<Observation, DispatchError>,
    ))
        ensures
            next.0.same_run(self),
            next.0.issued() == self.issued(),
            match next.1 {
                Err(e) => {
                    &&& next.0.in_flight() == self.in_flight()
                    &&& next.0.outcomes() == self.outcomes()
                    &&& next.0.failure() == self.failure()
                    &&& self.failure() is Some || place_of(self.in_flight(), id) is None
                    &&& e == if self.failure() is Some {
                        DispatchError::RunEnded
                    } else {
                        DispatchError::UnknownRequest
                    }
                },
                Ok(seen) => {
                    &&& self.failure() is None
                    &&& place_of(self.in_flight(), id) matches Some(k)
                    &&& next.0.in_flight() == self.in_flight().remove(k)
                    &&& next.0.outcomes() == self.outcomes().push(
                        RequestOutcome {
                            id,
                            issued_after: self.in_flight()[k].issued_after,
                            completed_at: (self.outcomes().len() + 1) as usize,
                            elapsed_micros,
                            body,
                            matched: seen.matched,
                        },
                    )
                    &&& seen.matched == verdict(body@, self.expected())
                    &&& seen.progress == advances_progress(seen.matched)
                    &&& seen.echo.deep_view() == if self.expected() is None && has_comparable_form(
                        body@,
                    ) {
                        Some(comparable_text(body@))
                    } else {
                        None
                    }
                    &&& next.0.failure() == if seen.matched == Some(false) && self.policy()
                        == FailurePolicy::FailFast {
                        Some(RunError::Mismatch)
                    } else {
                        None
                    }
                },
            },
    {
        proof {
            use_type_invariant(&self);
        }
        if self.failure.is_some() {
            return (self, Err(DispatchError::RunEnded));
        }
        let k: usize = match find(&self.in_flight, id) {
            Some(k) => k,
            None => {
                return (self, Err(DispatchError::UnknownRequest));
            },
        };
        let matched = verify(body.as_slice(), &self.expected);
        let echo = match self.expected {
            Some(_) => None,
            None => comparable_form(body.as_slice()),
        };
        let Dispatcher {
            total,
            limit,
            policy,
            expected,
            report_stats,
            issued,
            mut in_flight,
            mut outcomes,
            mismatches,
            failure,
        } = self;
        let ghost tickets = in_flight@;
        let ghost earlier = outcomes@;
        let ticket = in_flight.remove(k);
        let missed = match matched {
            Some(false) => true,
            _ => false,
        };
        let outcome = RequestOutcome {
            id,
            issued_after: ticket.issued_after,
            completed_at: outcomes.len() + 1,
            elapsed_micros,
            body,
            matched,
        };
        outcomes.push(outcome);
        proof {
            assert(ticket_ok(tickets[k as int], issued as int, earlier.len() as int, limit as int));
            assert(place_of(tickets, id) == Some(k as int)) by {
                let chosen = place_of(tickets, id)->0;
                if chosen < k {
                    assert(tickets[chosen].id != tickets[k as int].id);
                } else if chosen > k {
                    assert(tickets[k as int].id != tickets[chosen].id);
                }
            }
            let left = in_flight@;
            assert forall|i: int| 0 <= i < left.len() implies ticket_ok(
                #[trigger] left[i],
                issued as int,
                (earlier.len() + 1) as int,
                limit as int,
            ) by {
                if i < k {
                    assert(left[i] == tickets[i]);
                } else {
                    assert(left[i] == tickets[i + 1]);
                }
            }
            assert forall|i: int, j: int| 0 <= i < j < left.len() implies (#[trigger] left[i]).id
                != (#[trigger] left[j]).id by {
                let a = if i < k {
                    i
                } else {
                    i + 1
                };
                let b = if j < k {
                    j
                } else {
                    j + 1
                };
                assert(left[i] == tickets[a] && left[j] == tickets[b]);
            }
            assert forall|j: int| 0 <= j < outcomes@.len() implies outcome_ok(
                #[trigger] outcomes@[j],
                j,
                issued as int,
                limit as int,
                expected.deep_view(),
            ) by {
                if j < earlier.len() {
                    assert(outcomes@[j] == earlier[j]);
                }
            }
            assert(outcomes@.drop_last() == earlier);
            lemma_mismatches_bounded(earlier);
            assert forall|i: int, j: int| 0 <= i < j < outcomes@.len() implies (
            #[trigger] outcomes@[i]).id != (#[trigger] outcomes@[j]).id by {
                assert(outcomes@[i] == earlier[i]);
                if j < earlier.len() {
                    assert(outcomes@[j] == earlier[j]);
                } else {
                    assert(tickets[k as int].id != earlier[i].id);
                }
            }
            assert forall|i: int, j: int|
                0 <= i < left.len() && 0 <= j < outcomes@.len() implies (#[trigger] left[i]).id
                != (#[trigger] outcomes@[j]).id by {
                let a = if i < k {
                    i
                } else {
                    i + 1
                };
                assert(left[i] == tickets[a]);
                if j < earlier.len() {
                    assert(outcomes@[j] == earlier[j]);
                    assert(tickets[a].id != earlier[j].id);
                } else if a < k {
                    assert(tickets[a].id != tickets[k as int].id);
                } else {
                    assert(tickets[k as int].id != tickets[a].id);
                }
            }
        }
        let next = Dispatcher {
            total,
            limit,
            policy,
            expected,
            report_stats,
            issued,
            in_flight,
            outcomes,
            mismatches: if missed {
                mismatches + 1
            } else {
                mismatches
            },
            failure: if missed && policy == FailurePolicy::FailFast {
                Some(RunError::Mismatch)
            } else {
                None
            },
        };
        let progress = !missed;
        (next, Ok(Observation { matched, progress, echo }))
    }

    /// Records that the request numbered `id` failed in the network, which
    /// aborts the run. Nothing changes where the run is already aborted or
    /// no such request is in flight.
    pub fn fail(self, id: usize) -> (next: (Dispatcher, Result<(), DispatchError>))
        ensures
            next.0.same_run(self),
            next.0.issued() == self.issued(),
            next.0.in_flight() == self.in_flight(),
            next.0.outcomes() == self.outcomes(),
            match next.1 {
                Err(e) => {
                    &&& next.0.failure() == self.failure()
                    &&& self.failure() is Some || place_of(self.in_flight(), id) is None
                    &&& e == if self.failure() is Some {
                        DispatchError::RunEnded
                    } else {
                        DispatchError::UnknownRequest
                    }
                },
                Ok(_) => {
                    &&& self.failure() is None
                    &&& place_of(self.in_flight(), id) is Some
                    &&& next.0.failure() == Some(RunError::Network)
                },
            },
    {
        proof {
            use_type_invariant(&self);
        }
        if self.failure.is_some() {
            return (self, Err(DispatchError::RunEnded));
        }
        if find(&self.in_flight, id).is_none() {
            return (self, Err(DispatchError::UnknownRequest));
        }
        let Dispatcher {
            total,
            limit,
            policy,
            expected,
            report_stats,
            issued,
            in_flight,
            outcomes,
            mismatches,
            failure,
        } = self;
        let next = Dispatcher {
            total,
            limit,
            policy,
            expected,
            report_stats,
            issued,
            in_flight,
            outcomes,
            mismatches,
            failure: Some(RunError::Network),
        };
        (next, Ok(()))
    }

    /// The result of the run: its outcomes once every request has been
    /// answered, the error that aborted it, or `Unfinished` before that.
    /// The result holds exactly as many outcomes as the run has requests.
    pub fn finish(self) -> (ended: Result<RunResult, RunError>)
        ensures
            match ended {
                Ok(result) => {
                    &&& self.failure() is None
                    &&& result.outcomes@ == self.outcomes()
                    &&& result.outcomes@.len() == self.total()
                    &&& result.mismatches == mismatch_count(self.outcomes())
                    &&& self.policy() == FailurePolicy::FailFast ==> result.mismatches == 0
                    &&& result.stats is Some <==> self.reports_stats() && summable(
                        elapsed_times(self.outcomes()),
                    )
                    &&& result.stats matches Some(stats) ==> stats.describes(
                        elapsed_times(self.outcomes()),
                    )
                },
                Err(e) => {
                    &&& self.failure() is Some || self.outcomes().len() < self.total()
                    &&& e == match self.failure() {
                        Some(failure) => failure,
                        None => RunError::Unfinished,
                    }
                },
            },
    {
        proof {
            use_type_invariant(&self);
        }
        match self.failure {
            Some(e) => {
                return Err(e);
            },
            None => {},
        }
        if self.outcomes.len() < self.total {
            return Err(RunError::Unfinished);
        }
        let stats = if self.report_stats {
            let times = times_of(&self.outcomes);
            aggregate(times.as_slice())
        } else {
            None
        };
        Ok(RunResult { outcomes: self.outcomes, mismatches: self.mismatches, stats })
    }

    /// At no time are more requests in flight than the limit allows, and the
    /// limit is never more than the number of requests. Every request that
    /// was issued is in flight or answered, and none is issued beyond the
    /// number of requests of the run.
    pub proof fn lemma_in_flight_bounded(self)
        requires
            self.inv(),
        ensures
            self.in_flight().len() <= self.limit() <= self.total(),
            self.in_flight().len() + self.outcomes().len() == self.issued() <= self.total(),
    {
    }

    /// The numbers of the requests that are open at instant `t`: those
    /// issued when at most `t` responses had arrived and not answered by
    /// then. They are the answered requests whose window from issue to
    /// completion holds `t`, and the requests in flight that were issued by
    /// then.
    pub open spec fn open_at(&self, t: int) -> Set<int> {
        Set::new(
            |id: int|
                {
                    ||| exists|j: int|
                        0 <= j < self.outcomes().len() && (#[trigger] self.outcomes()[j]).id == id
                            && self.outcomes()[j].issued_after <= t
                            < self.outcomes()[j].completed_at
                    ||| exists|i: int|
                        0 <= i < self.in_flight().len() && (#[trigger] self.in_flight()[i]).id
                            == id && self.in_flight()[i].issued_after <= t
                },
        )
    }

    /// The numbers of the requests answered by the first `t` responses.
    spec fn answered_by(&self, t: int) -> Set<int> {
        Set::new(
            |id: int|
                exists|j: int|
                    0 <= j < t && j < self.outcomes@.len() && (#[trigger] self.outcomes@[j]).id
                        == id,
        )
    }

    proof fn lemma_answered_by(self, t: int)
        requires
            self.inv(),
            0 <= t <= self.outcomes@.len(),
        ensures
            self.answered_by(t).finite(),
            self.answered_by(t).len() == t,
        decreases t,
    {
        if t == 0 {
            assert(self.answered_by(0) =~= Set::empty());
        } else {
            self.lemma_answered_by(t - 1);
            let earlier = self.answered_by(t - 1);
            let last = self.outcomes@[t - 1].id as int;
            assert(!earlier.contains(last)) by {
                if earlier.contains(last) {
                    let j = choose|j: int|
                        0 <= j < t - 1 && j < self.outcomes@.len() && (
                        #[trigger] self.outcomes@[j]).id == last;
                    assert(self.outcomes@[j].id != self.outcomes@[t - 1].id);
                }
            }
            assert forall|id: int| self.answered_by(t).contains(id) <==> earlier.insert(
                last,
            ).contains(id) by {
                if self.answered_by(t).contains(id) {
                    let j = choose|j: int|
                        0 <= j < t && j < self.outcomes@.len() && (#[trigger] self.outcomes@[j]).id
                            == id;
                    if j < t - 1 {
                        assert(earlier.contains(id));
                    }
                }
                if earlier.contains(id) {
                    let j = choose|j: int|
                        0 <= j < t - 1 && j < self.outcomes@.len() && (
                        #[trigger] self.outcomes@[j]).id == id;
                    assert(self.outcomes@[j].id == id);
                }
                if id == last {
                    assert(self.outcomes@[t - 1].id == id);
                }
            }
            assert(self.answered_by(t) =~= earlier.insert(last));
        }
    }

    /// At no instant are more requests open than the limit allows: the
    /// requests issued when at most `t` responses had arrived and not
    /// answered by then are never more than the limit.
    pub proof fn lemma_open_requests_bounded(self, t: int)
        requires
            self.inv(),
            0 <= t <= self.outcomes().len(),
        ensures
            self.open_at(t).finite(),
            self.open_at(t).len() <= self.limit(),
    {
        let open = self.open_at(t);
        let closed = self.answered_by(t);
        let all = set_int_range(0, t + self.limit);
        self.lemma_answered_by(t);
        lemma_int_range(0, t + self.limit);
        assert forall|id: int| open.contains(id) implies all.contains(id) && !closed.contains(
            id,
        ) by {
            let answered = exists|j: int|
                0 <= j < self.outcomes().len() && (#[trigger] self.outcomes()[j]).id == id
                    && self.outcomes()[j].issued_after <= t < self.outcomes()[j].completed_at;
            if answered {
                let j = choose|j: int|
                    0 <= j < self.outcomes().len() && (#[trigger] self.outcomes()[j]).id == id
                        && self.outcomes()[j].issued_after <= t < self.outcomes()[j].completed_at;
                assert(outcome_ok(
                    self.outcomes@[j],
                    j,
                    self.issued as int,
                    self.limit as int,
                    self.expected.deep_view(),
                ));
                if closed.contains(id) {
                    let e = choose|e: int|
                        0 <= e < t && e < self.outcomes@.len() && (#[trigger] self.outcomes@[e]).id
                            == id;
                    assert(self.outcomes@[e].id != self.outcomes@[j].id);
                }
            } else {
                let i = choose|i: int|
                    0 <= i < self.in_flight().len() && (#[trigger] self.in_flight()[i]).id == id
                        && self.in_flight()[i].issued_after <= t;
                assert(ticket_ok(
                    self.in_flight@[i],
                    self.issued as int,
                    self.outcomes@.len() as int,
                    self.limit as int,
                ));
                if closed.contains(id) {
                    let e = choose|e: int|
                        0 <= e < t && e < self.outcomes@.len() && (#[trigger] self.outcomes@[e]).id
                            == id;
                    assert(self.in_flight@[i].id != self.outcomes@[e].id);
                }
            }
        }
        assert forall|id: int| closed.contains(id) implies all.contains(id) by {
            let e = choose|e: int|
                0 <= e < t && e < self.outcomes@.len() && (#[trigger] self.outcomes@[e]).id == id;
            assert(outcome_ok(
                self.outcomes@[e],
                e,
                self.issued as int,
                self.limit as int,
                self.expected.deep_view(),
            ));
        }
        assert(open.subset_of(all));
        assert((open + closed).subset_of(all));
        assert(open.disjoint(closed));
        lemma_len_subset(open, all);
        lemma_len_subset(open + closed, all);
        lemma_set_disjoint_lens(open, closed);
    }

    /// A request is issued only while fewer requests than the limit are
    /// unanswered: of the requests issued before the one numbered `id`, all
    /// but fewer than the limit had been answered when it was issued. This
    /// holds of the requests in flight and of those answered.
    pub proof fn lemma_issued_under_limit(self)
        requires
            self.inv(),
        ensures
            forall|i: int|
                #![trigger self.in_flight()[i]]
                0 <= i < self.in_flight().len() ==> {
                    let t = self.in_flight()[i];
                    t.issued_after <= t.id < t.issued_after + self.limit()
                },
            forall|j: int|
                #![trigger self.outcomes()[j]]
                0 <= j < self.outcomes().len() ==> {
                    let o = self.outcomes()[j];
                    o.issued_after <= o.id < o.issued_after + self.limit()
                },
    {
        assert forall|i: int| 0 <= i < self.in_flight().len() implies {
            let t = #[trigger] self.in_flight()[i];
            t.issued_after <= t.id < t.issued_after + self.limit()
        } by {
            assert(ticket_ok(
                self.in_flight@[i],
                self.issued as int,
                self.outcomes@.len() as int,
                self.limit as int,
            ));
        }
        assert forall|j: int| 0 <= j < self.outcomes().len() implies {
            let o = #[trigger] self.outcomes()[j];
            o.issued_after <= o.id < o.issued_after + self.limit()
        } by {
            assert(outcome_ok(
                self.outcomes@[j],
                j,
                self.issued as int,
                self.limit as int,
                self.expected.deep_view(),
            ));
        }
    }

    /// Every outcome records its place in the order of arrival, a window
    /// that ends after it began, and the verdict on its body.
    pub proof fn lemma_outcome_recorded(self, j: int)
        requires
            self.inv(),
            0 <= j < self.outcomes().len(),
        ensures
            self.outcomes()[j].completed_at == j + 1,
            self.outcomes()[j].issued_after < self.outcomes()[j].completed_at,
            self.outcomes()[j].id < self.issued(),
            self.outcomes()[j].matched == verdict(self.outcomes()[j].body@, self.expected()),
    {
        assert(outcome_ok(
            self.outcomes@[j],
            j,
            self.issued as int,
            self.limit as int,
            self.expected.deep_view(),
        ));
    }

    /// No request is answered twice, and none is both answered and still in
    /// flight: the outcomes bear different numbers, none of them that of a
    /// request in flight.
    pub proof fn lemma_each_request_once(self)
        requires
            self.inv(),
        ensures
            forall|i: int, j: int|
                0 <= i < j < self.outcomes().len() ==> (#[trigger] self.outcomes()[i]).id != (
                #[trigger] self.outcomes()[j]).id,
            forall|i: int, j: int|
                0 <= i < j < self.in_flight().len() ==> (#[trigger] self.in_flight()[i]).id != (
                #[trigger] self.in_flight()[j]).id,
            forall|i: int, j: int|
                0 <= i < self.in_flight().len() && 0 <= j < self.outcomes().len() ==> (
                #[trigger] self.in_flight()[i]).id != (#[trigger] self.outcomes()[j]).id,
    {
    }

    /// With a limit of one the requests are served one after another, in
    /// the order of their numbers: the windows from issue to completion of
    /// two outcomes never overlap, the earlier one being closed when the
    /// later one opens.
    pub proof fn lemma_one_at_a_time(self, i: int, j: int)
        requires
            self.inv(),
            self.limit() == 1,
            0 <= i < j < self.outcomes().len(),
        ensures
            self.outcomes()[i].issued_after < self.outcomes()[i].completed_at
                <= self.outcomes()[j].issued_after < self.outcomes()[j].completed_at,
            self.outcomes()[i].id == i,
            self.outcomes()[j].id == j,
    {
        assert(outcome_ok(
            self.outcomes@[i],
            i,
            self.issued as int,
            self.limit as int,
            self.expected.deep_view(),
        ));
        assert(outcome_ok(
            self.outcomes@[j],
            j,
            self.issued as int,
            self.limit as int,
            self.expected.deep_view(),
        ));
    }

    /// The run never stalls: whenever the driver is told to wait, a request
    /// is in flight, and it is told to finish exactly when every request has
    /// been answered and the run was not aborted.
    pub proof fn lemma_never_stuck(self)
        requires
            self.inv(),
        ensures
            self.decision() == Action::Wait ==> self.in_flight().len() > 0,
            self.decision() == Action::Finish <==> self.failure() is None && self.outcomes().len()
                == self.total(),
            self.decision() == Action::Finish ==> self.in_flight().len() == 0,
    {
    }

    /// Without a mismatch on record the run is not aborted for one, and
    /// where the first mismatch ends the run, a run that goes on has none.
    pub proof fn lemma_fail_fast(self)
        requires
            self.inv(),
            self.policy() == FailurePolicy::FailFast,
            self.failure() is None,
        ensures
            mismatch_count(self.outcomes()) == 0,
    {
    }

    /// Whether the run has been aborted.
    pub fn is_aborted(&self) -> (aborted: bool)
        ensures
            aborted == self.failure() is Some,
    {
        self.failure.is_some()
    }

    /// The number of requests of the run.
    pub fn requests(&self) -> (n: usize)
        ensures
            n == self.total(),
    {
        self.total
    }

    /// The number of requests that may be in flight at once: the limit that
    /// was asked for, capped at the number of requests.
    pub fn capacity(&self) -> (n: usize)
        ensures
            n == self.limit(),
    {
        self.limit
    }

    /// The number of requests in flight, never more than the capacity.
    pub fn in_flight_count(&self) -> (n: usize)
        ensures
            n == self.in_flight().len(),
            n <= self.limit(),
    {
        proof {
            use_type_invariant(self);
        }
        self.in_flight.len()
    }

    /// The number of requests answered so far.
    pub fn completed(&self) -> (n: usize)
        ensures
            n == self.outcomes().len(),
            n <= self.total(),
    {
        proof {
            use_type_invariant(self);
        }
        self.outcomes.len()
    }

    /// The outcomes so far, in the order in which the responses arrived.
    pub fn outcomes_so_far(&self) -> (outcomes: &Vec<RequestOutcome>)
        ensures
            outcomes@ == self.outcomes(),
    {
        &self.outcomes
    }
}

} // verus!
