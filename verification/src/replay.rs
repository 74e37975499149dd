//! A whole run against a recorded transport.
//!
//! The transport is a list of replies that answers the requests in the order
//! in which they are issued: the reply at place `i` is the answer to the
//! request numbered `i`. The run goes through the dispatcher step by step, as
//! a live run does, so what holds of the dispatcher holds of it.

use crate::config::{fault_of, width_of, Client, FailurePolicy, RunConfig};
use crate::dispatcher::{
    elapsed_times, mismatch_count, place_of, Dispatcher, RequestOutcome, RunError, RunResult,
    Ticket,
};
use crate::stats::summable;
use crate::verify::verdict;
use vstd::prelude::*;

verus! {

/// What the transport answered to one request.
#[derive(Clone, Debug, PartialEq, Eq)]
pub enum Reply {
    /// The full body, so many microseconds after the request was issued.
    Body { elapsed_micros: u64, body: Vec<u8> },
    /// A failure in the network.
    Failure,
}

/// The error that a reply ends the run with, if it does: a failure in the
/// network always, a body other than the expected one where the first
/// mismatch ends the run.
pub open spec fn reply_fault(
    reply: Reply,
    expected: Option<Seq<char>>,
    policy: FailurePolicy,
) -> Option<RunError> {
    match reply {
        Reply::Failure => Some(RunError::Network),
        Reply::Body { body, .. } => if policy == FailurePolicy::FailFast && verdict(
            body@,
            expected,
        ) == Some(false) {
            Some(RunError::Mismatch)
        } else {
            None
        },
    }
}

/// The error that ends a run of `total` requests, looking at the replies
/// from place `from` on: that of the first reply that has one, or
/// `Unfinished` where the replies run out before it.
pub open spec fn first_fault(
    replies: Seq<Reply>,
    from: int,
    total: int,
    expected: Option<Seq<char>>,
    policy: FailurePolicy,
) -> Option<RunError>
    decreases total - from,
{
    if from >= total {
        None
    } else if from >= replies.len() {
        Some(RunError::Unfinished)
    } else if reply_fault(replies[from], expected, policy) is Some {
        reply_fault(replies[from], expected, policy)
    } else {
        first_fault(replies, from + 1, total, expected, policy)
    }
}

/// The error that ends a run of `requests` requests with at most `limit` in
/// flight, if any: the fault of the configuration, else the first fault
/// among the replies.
pub open spec fn run_fault(
    requests: usize,
    limit: usize,
    expected: Option<Seq<char>>,
    policy: FailurePolicy,
    replies: Seq<Reply>,
) -> Option<RunError> {
    match fault_of(requests, limit) {
        Some(e) => Some(RunError::Config(e)),
        None => first_fault(replies, 0, requests as int, expected, policy),
    }
}

/// Whether `run` is the result of a run of `requests` requests, answered by
/// `replies` in the order of issue: one outcome for each request, in that
/// order, each with the verdict on its body, and the statistics of their
/// elapsed times where `report_stats` asks for them.
pub open spec fn is_result_of(
    run: RunResult,
    requests: usize,
    limit: usize,
    expected: Option<Seq<char>>,
    report_stats: bool,
    replies: Seq<Reply>,
) -> bool {
    &&& run.outcomes@.len() == requests
    &&& forall|i: int|
        #![trigger run.outcomes@[i]]
        0 <= i < requests ==> answers(
            run.outcomes@[i],
            i,
            replies[i],
            width_of(requests, limit),
            expected,
        )
    &&& run.mismatches == mismatch_count(run.outcomes@)
    &&& run.stats is Some <==> report_stats && summable(elapsed_times(run.outcomes@))
    &&& run.stats matches Some(stats) ==> stats.describes(elapsed_times(run.outcomes@))
}

/// The number of replies that had arrived when the request numbered `id` was
/// issued, with `width` requests in flight at once: none for the first
/// `width` requests, and one more for each request after them.
pub open spec fn issue_time(id: int, width: int) -> int {
    if id < width {
        0
    } else {
        id - width + 1
    }
}

/// Whether `outcome` is the record of the request numbered `id`, answered by
/// `reply`.
pub open spec fn answers(
    outcome: RequestOutcome,
    id: int,
    reply: Reply,
    width: int,
    expected: Option<Seq<char>>,
) -> bool {
    &&& reply matches Reply::Body { elapsed_micros, body }
    &&& outcome.id == id
    &&& outcome.issued_after == issue_time(id, width)
    &&& outcome.completed_at == id + 1
    &&& outcome.elapsed_micros == elapsed_micros
    &&& outcome.body@ == body@
    &&& outcome.matched == verdict(body@, expected)
}

proof fn lemma_clean_prefix(
    replies: Seq<Reply>,
    upto: int,
    total: int,
    expected: Option<Seq<char>>,
    policy: FailurePolicy,
)
    requires
        0 <= upto <= total,
        upto <= replies.len(),
        forall|i: int| 0 <= i < upto ==> reply_fault(#[trigger] replies[i], expected, policy) is None,
    ensures
        first_fault(replies, 0, total, expected, policy) == first_fault(
            replies,
            upto,
            total,
            expected,
            policy,
        ),
    decreases upto,
{
    if upto > 0 {
        lemma_clean_prefix(replies, upto - 1, total, expected, policy);
        assert(reply_fault(replies[upto - 1], expected, policy) is None);
    }
}

/// Runs `config` against the recorded `replies` and gives the result of the
/// run.
///
/// The run succeeds exactly when the configuration is accepted and each of
/// its requests has a reply without a fault. It then holds one outcome for
/// each request, in the order of the requests, whatever the limit on the
/// requests in flight.
pub fn dispatch(config: RunConfig, replies: &Vec<Reply>) -> (ended: Result<RunResult, RunError>)
    ensures
        match ended {
            Ok(run) => {
                &&& run_fault(
                    config.requests,
                    config.limit,
                    config.expected.deep_view(),
                    config.policy,
                    replies@,
                ) is None
                &&& is_result_of(
                    run,
                    config.requests,
                    config.limit,
                    config.expected.deep_view(),
                    config.report_stats,
                    replies@,
                )
                &&& config.policy == FailurePolicy::FailFast ==> run.mismatches == 0
            },
            Err(e) => run_fault(
                config.requests,
                config.limit,
                config.expected.deep_view(),
                config.policy,
                replies@,
            ) == Some(e),
        },
{
    let total: usize = config.requests;
    let ghost width = config.width();
    let ghost expected = config.expected.deep_view();
    let ghost policy = config.policy;
    let ghost report = config.report_stats;
    let fresh = match Dispatcher::new(config) {
        Ok(d) => d,
        Err(e) => {
            return Err(RunError::Config(e));
        },
    };
    proof {
        use_type_invariant(&fresh);
        fresh.lemma_in_flight_bounded();
    }
    let (mut d, _) = fresh.schedule();
    let mut done: usize = 0;
    while done < total
        invariant
            done <= total,
            1 <= width <= total,
            config.fault() is None,
            config.requests == total,
            config.width() == width,
            config.expected.deep_view() == expected,
            config.policy == policy,
            config.report_stats == report,
            d.total() == total,
            d.limit() == width,
            d.policy() == policy,
            d.expected() == expected,
            d.reports_stats() == report,
            d.failure() is None,
            d.outcomes().len() == done,
            d.issued() == vstd::math::min(total as int, done + width),
            d.in_flight().len() == d.issued() - done,
            forall|k: int|
                #![trigger d.in_flight()[k]]
                0 <= k < d.in_flight().len() ==> d.in_flight()[k] == (Ticket {
                    id: (done + k) as usize,
                    issued_after: issue_time(done + k, width) as usize,
                }),
            done <= replies@.len(),
            forall|i: int|
                0 <= i < done ==> reply_fault(#[trigger] replies@[i], expected, policy) is None,
            forall|i: int|
                #![trigger d.outcomes()[i]]
                0 <= i < done ==> answers(d.outcomes()[i], i, replies@[i], width, expected),
        decreases total - done,
    {
        proof {
            lemma_clean_prefix(replies@, done as int, total as int, expected, policy);
        }
        if done >= replies.len() {
            return d.finish();
        }
        let ghost tickets = d.in_flight();
        let ghost earlier = d.outcomes();
        assert(tickets[0].id == done);
        assert(place_of(tickets, done) == Some(0int)) by {
            let k = place_of(tickets, done)->0;
            assert(tickets[k].id == done + k);
        }
        match &replies[done] {
            Reply::Failure => {
                let (failed, _) = d.fail(done);
                return failed.finish();
            },
            Reply::Body { elapsed_micros, body } => {
                let (answered, _) = d.complete(done, *elapsed_micros, body.clone());
                if answered.is_aborted() {
                    return answered.finish();
                }
                proof {
                    use_type_invariant(&answered);
                    answered.lemma_in_flight_bounded();
                }
                let (next, _) = answered.schedule();
                proof {
                    let shown = next.outcomes();
                    assert forall|i: int| 0 <= i < done + 1 implies answers(
                        #[trigger] shown[i],
                        i,
                        replies@[i],
                        width,
                        expected,
                    ) by {
                        if i < done {
                            assert(shown[i] == earlier[i]);
                        }
                    }
                    let left = next.in_flight();
                    assert forall|k: int| 0 <= k < left.len() implies #[trigger] left[k] == (
                    Ticket {
                        id: (done + 1 + k) as usize,
                        issued_after: issue_time(done + 1 + k, width) as usize,
                    }) by {
                        if k < tickets.len() - 1 {
                            assert(left[k] == tickets[k + 1]);
                        }
                    }
                }
                d = next;
                done = done + 1;
            },
        }
    }
    proof {
        lemma_clean_prefix(replies@, total as int, total as int, expected, policy);
    }
    d.finish()
}

impl Client {
    /// The error that ends the client's run against `replies`, if any: that
    /// of the expected body, else that of the run itself, in which the first
    /// mismatch ends the run.
    pub open spec fn fault(&self, file_text: Option<Seq<char>>, replies: Seq<Reply>) -> Option<
        RunError,
    > {
        match self.expectation(file_text) {
            Err(e) => Some(RunError::Config(e)),
            Ok(expected) => run_fault(
                self.num,
                self.max_outbound_requests,
                expected,
                FailurePolicy::FailFast,
                replies,
            ),
        }
    }

    /// Runs the client against the recorded `replies`: resolves the
    /// expected body, checks the run, and dispatches it. `file_text` is the
    /// text of the file at `path`, or `None` where it could not be read.
    ///
    /// A run that is rejected issues no request. A run that succeeds holds
    /// one outcome for each of the `num` requests, and none of them is a
    /// mismatch.
    pub fn run(&self, file_text: Option<String>, replies: &Vec<Reply>) -> (ended: Result<
        RunResult,
        RunError,
    >)
        ensures
            match ended {
                Ok(run) => {
                    &&& self.fault(file_text.deep_view(), replies@) is None
                    &&& self.expectation(file_text.deep_view()) matches Ok(expected)
                    &&& is_result_of(
                        run,
                        self.num,
                        self.max_outbound_requests,
                        expected,
                        self.stats,
                        replies@,
                    )
                    &&& run.mismatches == 0
                },
                Err(e) => self.fault(file_text.deep_view(), replies@) == Some(e),
            },
    {
        let expected = match self.get_body(file_text) {
            Ok(expected) => expected,
            Err(e) => {
                return Err(RunError::Config(e));
            },
        };
        let config = match self.config(expected) {
            Ok(config) => config,
            Err(e) => {
                return Err(RunError::Config(e));
            },
        };
        dispatch(config, replies)
    }
}

} // verus!
