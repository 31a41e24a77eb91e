//! Bookkeeping for a benchmark run: per-connection summaries, progress
//! updates, and the aggregated totals a report is built from.  Durations
//! are carried as plain integers (milliseconds for a whole connection,
//! microseconds for one request) so that the arithmetic on them is
//! verified.

use vstd::prelude::*;

verus! {

/// Everything a finished run produced.
pub struct BenchmarkResults {
    /// One summary per connection.
    pub summaries: Vec<ConnectionSummary>,
    /// Wall-clock time of the whole run, in milliseconds.
    pub total_duration_ms: u64,
}

/// A progress report sent while a run is under way.
#[derive(Debug)]
pub struct BenchmarkUpdate {
    pub connection_id: u64,
    pub current_request: u64,
}

/// What one connection did over its whole life.
pub struct ConnectionSummary {
    pub connection_id: u64,
    pub successful_requests: u64,
    pub failed_requests: u64,
    /// Wall-clock time the connection was busy, in milliseconds.
    pub duration: u64,
    /// One entry per request, in the order they were issued.
    pub requests: Vec<RequestResult>,
}

/// The outcome of a single request.
pub struct RequestResult {
    pub statuscode: u16,
    /// How long the request took, in microseconds.
    pub duration: u64,
}

/// The status code below which a response counts as a success.
pub const FAILURE_STATUS_FLOOR: u16 = 408;

impl ConnectionSummary {
    /// A fresh summary for the connection `connection_id`, with room for
    /// the requests it is expected to issue and every counter at zero.
    pub fn new(connection_id: u64, number_of_requests: u64) -> (s: Self)
        ensures
            s.connection_id == connection_id,
            s.successful_requests == 0,
            s.failed_requests == 0,
            s.duration == 0,
            s.requests@ == Seq::<RequestResult>::empty(),
    {
        let capacity: usize = #[verifier::truncate] (number_of_requests as usize);
        ConnectionSummary {
            connection_id,
            successful_requests: 0,
            failed_requests: 0,
            duration: 0,
            requests: Vec::with_capacity(capacity),
        }
    }

    /// Books one finished request: a status code under
    /// [`FAILURE_STATUS_FLOOR`] counts as a success, anything else as a
    /// failure, and the request's outcome is appended to the log either
    /// way.
    pub fn record_request(&mut self, statuscode: u16, duration: u64)
        requires
            old(self).successful_requests < u64::MAX,
            old(self).failed_requests < u64::MAX,
        ensures
            statuscode < FAILURE_STATUS_FLOOR ==> final(self).successful_requests == old(
                self,
            ).successful_requests + 1 && final(self).failed_requests == old(
                self,
            ).failed_requests,
            statuscode >= FAILURE_STATUS_FLOOR ==> final(self).failed_requests == old(
                self,
            ).failed_requests + 1 && final(self).successful_requests == old(
                self,
            ).successful_requests,
            final(self).requests@ == old(self).requests@.push(
                (RequestResult { statuscode, duration }),
            ),
            final(self).connection_id == old(self).connection_id,
            final(self).duration == old(self).duration,
    {
        if statuscode < FAILURE_STATUS_FLOOR {
            self.successful_requests = self.successful_requests + 1;
        } else {
            self.failed_requests = self.failed_requests + 1;
        }
        self.requests.push(RequestResult { statuscode, duration });
    }
}

/// The sum of the entries of `xs` from position `i` on.
pub open spec fn sum_from(xs: Seq<u64>, i: int) -> int
    decreases xs.len() - i,
{
    if 0 <= i < xs.len() {
        xs[i] + sum_from(xs, i + 1)
    } else {
        0
    }
}

/// A sum of counters is never negative.
proof fn lemma_sum_nonneg(xs: Seq<u64>, i: int)
    ensures
        sum_from(xs, i) >= 0,
    decreases xs.len() - i,
{
    if 0 <= i < xs.len() {
        lemma_sum_nonneg(xs, i + 1);
    }
}

/// The per-connection success counters of `summaries`, in order.
pub open spec fn successes_of(summaries: Seq<ConnectionSummary>) -> Seq<u64> {
    Seq::new(summaries.len(), |i: int| summaries[i].successful_requests)
}

/// The per-connection failure counters of `summaries`, in order.
pub open spec fn failures_of(summaries: Seq<ConnectionSummary>) -> Seq<u64> {
    Seq::new(summaries.len(), |i: int| summaries[i].failed_requests)
}

impl BenchmarkResults {
    /// How many requests succeeded, over all connections.
    pub fn total_successful(&self) -> (t: u64)
        requires
            sum_from(successes_of(self.summaries@), 0) <= u64::MAX,
        ensures
            t == sum_from(successes_of(self.summaries@), 0),
    {
        let ghost xs = successes_of(self.summaries@);
        let mut t: u64 = 0;
        let mut i: usize = 0;
        while i < self.summaries.len()
            invariant
                xs == successes_of(self.summaries@),
                xs.len() == self.summaries@.len(),
                i <= self.summaries@.len(),
                sum_from(xs, 0) <= u64::MAX,
                sum_from(xs, 0) == t + sum_from(xs, i as int),
            decreases self.summaries@.len() - i,
        {
            proof {
                lemma_sum_nonneg(xs, i as int + 1);
            }
            t = t + self.summaries[i].successful_requests;
            i = i + 1;
        }
        t
    }

    /// How many requests failed, over all connections.
    pub fn total_failed(&self) -> (t: u64)
        requires
            sum_from(failures_of(self.summaries@), 0) <= u64::MAX,
        ensures
            t == sum_from(failures_of(self.summaries@), 0),
    {
        let ghost xs = failures_of(self.summaries@);
        let mut t: u64 = 0;
        let mut i: usize = 0;
        while i < self.summaries.len()
            invariant
                xs == failures_of(self.summaries@),
                xs.len() == self.summaries@.len(),
                i <= self.summaries@.len(),
                sum_from(xs, 0) <= u64::MAX,
                sum_from(xs, 0) == t + sum_from(xs, i as int),
            decreases self.summaries@.len() - i,
        {
            proof {
                lemma_sum_nonneg(xs, i as int + 1);
            }
            t = t + self.summaries[i].failed_requests;
            i = i + 1;
        }
        t
    }
}

/// How many requests the connection `id` must issue so that the whole run
/// performs exactly `total_requests` of them: every connection gets the
/// even share, and the first `total_requests % connections` connections
/// take one of the leftovers each.
pub fn requests_for_connection(id: u64, total_requests: u64, connections: u64) -> (n: u64)
    requires
        connections > 0,
        id < connections,
    ensures
        n == total_requests / connections + if id < total_requests % connections {
            1int
        } else {
            0int
        },
{
    let base = total_requests / connections;
    if id < total_requests % connections {
        proof {
            assert(total_requests % 1 == 0);
            assert(connections >= 2);
            vstd::arithmetic::div_mod::lemma_div_is_ordered_by_denominator(
                total_requests as int,
                2,
                connections as int,
            );
            vstd::arithmetic::div_mod::lemma_div_is_ordered(
                total_requests as int,
                u64::MAX as int,
                2,
            );
        }
        base + 1
    } else {
        base
    }
}

} // verus!
