//! The decisions of the concurrent scan: a shared counter hands out IDs,
//! each worker turns what a fetch brought into an action, and a single
//! aggregator drains the workers' results until a flag is found.
//!
//! The workers, the channel between them and the aggregator, and the fetches
//! themselves run outside this module; it decides what each of them does next.

use crate::pattern::{flag_group, opt_view, regex_flag, Patterns};
use vstd::prelude::*;

verus! {

/// A transport failure reported by the HTTP client.
#[verifier::external_type_specification]
#[verifier::external_body]
pub struct ExReqwestError(reqwest::Error);

/// A response body that matched no known schema.
#[verifier::external_type_specification]
#[verifier::external_body]
pub struct ExBytes(bytes::Bytes);

/// The message with which the service says that a ticket does not exist.
pub const TICKET_NOT_FOUND: &'static str = "Ticket not found";

/// The message with which the service says that the session is invalid.
pub const NOT_AUTHENTICATED: &'static str = "Not authenticated";

/// A shared counter that hands out each ID exactly once, in order.
#[derive(Debug)]
pub struct Counter {
    next: usize,
}

impl View for Counter {
    type V = nat;

    /// The next ID that the counter hands out.
    closed spec fn view(&self) -> nat {
        self.next as nat
    }
}

impl Counter {
    /// A counter whose first ID is `start`.
    pub fn new(start: usize) -> (r: Self)
        ensures
            r@ == start,
    {
        Counter { next: start }
    }

    /// The next ID that the counter hands out.
    pub fn peek(&self) -> (r: usize)
        ensures
            r == self@,
    {
        self.next
    }

    /// Hands out the next ID.
    pub fn next(&mut self) -> (r: usize)
        requires
            old(self)@ < usize::MAX,
        ensures
            r == old(self)@,
            final(self)@ == old(self)@ + 1,
            (r as nat, final(self)@) == counter_step(old(self)@),
    {
        let r = self.next;
        self.next = self.next + 1;
        r
    }
}

/// One call of `Counter::next` on a counter at `n`: the ID it hands out,
/// and the counter after it.
pub open spec fn counter_step(n: nat) -> (nat, nat) {
    (n, n + 1)
}

/// The IDs that `k` successive calls of `Counter::next` hand out, from a
/// counter at `start`: each call is one `counter_step`.
pub open spec fn counter_issued(start: nat, k: nat) -> Seq<nat>
    decreases k,
{
    if k == 0 {
        Seq::empty()
    } else {
        let (id, after) = counter_step(start);
        seq![id] + counter_issued(after, (k - 1) as nat)
    }
}

/// The counter after `k` successive calls of `Counter::next` from `start`.
pub open spec fn counter_after(start: nat, k: nat) -> nat
    decreases k,
{
    if k == 0 {
        start
    } else {
        counter_after(counter_step(start).1, (k - 1) as nat)
    }
}

/// The IDs that a counter hands out are distinct and form the contiguous
/// increasing run that starts at its first ID; after `k` calls the counter
/// stands at `start + k`.
pub proof fn lemma_counter_contiguous(start: nat, k: nat)
    ensures
        counter_issued(start, k) == Seq::new(k, |i: int| (start + i) as nat),
        counter_after(start, k) == start + k,
        forall|i: int, j: int|
            0 <= i < j < k ==> counter_issued(start, k)[i] < counter_issued(start, k)[j],
    decreases k,
{
    if k > 0 {
        lemma_counter_contiguous(start + 1, (k - 1) as nat);
    }
    assert(counter_issued(start, k) =~= Seq::new(k, |i: int| (start + i) as nat));
}

/// A ticket as the service describes it.
#[derive(Debug)]
pub struct Ticket {
    pub id: usize,
    pub subject: String,
    pub description: String,
}

/// A failure to get one ticket.
#[derive(Debug)]
pub enum ScanError {
    /// The request failed.
    Io(reqwest::Error),
    /// The response matched no known schema.
    UnknownSchema(bytes::Bytes),
    /// The service answered with an error message.
    Response(String),
    /// The service no longer accepts the session: the whole scan must stop.
    InvalidSession,
}

impl ScanError {
    /// Whether this failure ends the whole scan.
    pub open spec fn is_fatal(&self) -> bool {
        self is InvalidSession
    }
}

/// The outcome of the whole scan.
#[derive(Debug)]
pub enum Scan {
    Success { flag: String, id: usize },
    Failure,
}

/// What a fetch brought back, once its body was decoded.
#[derive(Debug)]
pub enum Fetched {
    /// The body decoded as a ticket.
    Ticket(Ticket),
    /// The body decoded as an error message.
    ErrorMessage(String),
    /// The body matched no known schema.
    Unknown(bytes::Bytes),
    /// The request itself failed.
    Transport(reqwest::Error),
}

/// The meaning of a fetch for the scan.
#[derive(Debug)]
pub enum FetchOutcome {
    Item(Ticket),
    EndOfWork,
    RecoverableError(ScanError),
    FatalError(ScanError),
}

/// The meaning of `f`.
pub open spec fn outcome_of(f: Fetched) -> FetchOutcome {
    match f {
        Fetched::Ticket(t) => FetchOutcome::Item(t),
        Fetched::ErrorMessage(m) => if m@ == TICKET_NOT_FOUND@ {
            FetchOutcome::EndOfWork
        } else if m@ == NOT_AUTHENTICATED@ {
            FetchOutcome::FatalError(ScanError::InvalidSession)
        } else {
            FetchOutcome::RecoverableError(ScanError::Response(m))
        },
        Fetched::Unknown(b) => FetchOutcome::RecoverableError(ScanError::UnknownSchema(b)),
        Fetched::Transport(e) => FetchOutcome::RecoverableError(ScanError::Io(e)),
    }
}

fn same_text(a: &String, b: &str) -> (r: bool)
    ensures
        r == (a@ == b@),
{
    let b = b.to_owned();
    *a == b
}

/// Classifies what a fetch brought: a ticket is an item, the service's
/// "not found" ends this worker's share of the keyspace, an invalid session
/// is fatal, and anything else is an error to report.
pub fn classify(fetched: Fetched) -> (r: FetchOutcome)
    ensures
        r == outcome_of(fetched),
{
    match fetched {
        Fetched::Ticket(t) => FetchOutcome::Item(t),
        Fetched::ErrorMessage(m) => {
            if same_text(&m, TICKET_NOT_FOUND) {
                FetchOutcome::EndOfWork
            } else if same_text(&m, NOT_AUTHENTICATED) {
                FetchOutcome::FatalError(ScanError::InvalidSession)
            } else {
                FetchOutcome::RecoverableError(ScanError::Response(m))
            }
        },
        Fetched::Unknown(b) => FetchOutcome::RecoverableError(ScanError::UnknownSchema(b)),
        Fetched::Transport(e) => FetchOutcome::RecoverableError(ScanError::Io(e)),
    }
}

/// What happened to a worker since its last action.
#[derive(Debug)]
pub enum WorkerEvent {
    /// A fetch of the ID it was handed completed.
    Fetched(Fetched),
    /// Its last push was accepted by the channel.
    Delivered,
    /// Its last push found the aggregator gone.
    Closed,
}

/// What a worker does next.
#[derive(Debug)]
pub enum WorkerAction {
    /// Push this result onto the channel.
    Push(Result<Ticket, ScanError>),
    /// Take the next ID from the counter and fetch it.
    FetchNext,
    /// Stop this worker; the others go on.
    Stop,
    /// Stop the whole scan with this error.
    Abort(ScanError),
}

/// What a worker does on `event`.
pub open spec fn worker_decision(event: WorkerEvent) -> WorkerAction {
    match event {
        WorkerEvent::Fetched(f) => match outcome_of(f) {
            FetchOutcome::Item(t) => WorkerAction::Push(Ok(t)),
            FetchOutcome::EndOfWork => WorkerAction::Stop,
            FetchOutcome::RecoverableError(e) => WorkerAction::Push(Err(e)),
            FetchOutcome::FatalError(e) => WorkerAction::Abort(e),
        },
        WorkerEvent::Delivered => WorkerAction::FetchNext,
        WorkerEvent::Closed => WorkerAction::Stop,
    }
}

/// The worker's decision on `event`. A closed channel means that the flag
/// was found: the worker stops, without error.
pub fn worker_step(event: WorkerEvent) -> (r: WorkerAction)
    ensures
        r == worker_decision(event),
{
    match event {
        WorkerEvent::Fetched(f) => match classify(f) {
            FetchOutcome::Item(t) => WorkerAction::Push(Ok(t)),
            FetchOutcome::EndOfWork => WorkerAction::Stop,
            FetchOutcome::RecoverableError(e) => WorkerAction::Push(Err(e)),
            FetchOutcome::FatalError(e) => WorkerAction::Abort(e),
        },
        WorkerEvent::Delivered => WorkerAction::FetchNext,
        WorkerEvent::Closed => WorkerAction::Stop,
    }
}

/// The flag of a ticket: the one in its subject, else the one in its
/// description.
pub open spec fn ticket_flag(t: Ticket) -> Option<Seq<char>> {
    match flag_group(t.subject@) {
        Some(f) => Some(f),
        None => flag_group(t.description@),
    }
}

/// How a run ends.
pub enum Verdict {
    Found { flag: Seq<char>, id: nat },
    NotFound,
    Failed(ScanError),
}

/// How the run ends on what the aggregator received (`None`: the channel
/// closed), or `None` where it goes on reading.
pub open spec fn verdict_on(received: Option<Result<Ticket, ScanError>>) -> Option<Verdict> {
    match received {
        None => Some(Verdict::NotFound),
        Some(Ok(t)) => match ticket_flag(t) {
            Some(f) => Some(Verdict::Found { flag: f, id: t.id as nat }),
            None => None,
        },
        Some(Err(e)) => if e.is_fatal() {
            Some(Verdict::Failed(e))
        } else {
            None
        },
    }
}

/// The verdict that a result of the run stands for.
pub open spec fn verdict_of(r: Result<Scan, ScanError>) -> Verdict {
    match r {
        Ok(Scan::Success { flag, id }) => Verdict::Found { flag: flag@, id: id as nat },
        Ok(Scan::Failure) => Verdict::NotFound,
        Err(e) => Verdict::Failed(e),
    }
}

/// The verdict after the aggregator reads `items` in order and then finds
/// the channel closed.
pub open spec fn drain(items: Seq<Result<Ticket, ScanError>>) -> Verdict
    decreases items.len(),
{
    if items.len() == 0 {
        Verdict::NotFound
    } else {
        match verdict_on(Some(items[0])) {
            Some(v) => v,
            None => drain(items.drop_first()),
        }
    }
}

/// The errors that the aggregator reports while it reads `items` in order,
/// up to the item that ends the run.
pub open spec fn drain_reports(items: Seq<Result<Ticket, ScanError>>) -> Seq<ScanError>
    decreases items.len(),
{
    if items.len() == 0 {
        Seq::empty()
    } else {
        match verdict_on(Some(items[0])) {
            Some(_) => Seq::empty(),
            None => match items[0] {
                Err(e) => seq![e] + drain_reports(items.drop_first()),
                Ok(_) => drain_reports(items.drop_first()),
            },
        }
    }
}

/// Once an item ends the run, nothing that arrives after it is looked at.
pub proof fn lemma_drain_stops_at_verdict(
    items: Seq<Result<Ticket, ScanError>>,
    more: Seq<Result<Ticket, ScanError>>,
    i: int,
)
    requires
        0 <= i < items.len(),
        verdict_on(Some(items[i])) is Some,
    ensures
        drain(items + more) == drain(items),
    decreases items.len(),
{
    assert((items + more)[0] == items[0]);
    if verdict_on(Some(items[0])) is None {
        assert((items + more).drop_first() =~= items.drop_first() + more);
        lemma_drain_stops_at_verdict(items.drop_first(), more, i - 1);
    }
}

/// The flag in a ticket's subject, else in its description.
pub fn flag_of(patterns: &Patterns, t: &Ticket) -> (r: Option<String>)
    ensures
        opt_view(r) == ticket_flag(*t),
{
    match regex_flag(patterns, t.subject.as_str()) {
        Some(f) => Some(f),
        None => regex_flag(patterns, t.description.as_str()),
    }
}

/// What the aggregator does next.
#[derive(Debug)]
pub enum AggregatorAction {
    /// Read the next item.
    Continue,
    /// Report this error, then read the next item.
    Report(ScanError),
    /// The run is over, with this result: stop reading and cancel the
    /// workers.
    Finish(Result<Scan, ScanError>),
}

/// The aggregator's decision on what it received (`None`: the channel is
/// closed and drained). A ticket with a flag ends the run with the flag, a
/// fatal error ends it with that error, a closed channel ends it with no
/// flag, and another error is reported.
pub fn aggregate_step(patterns: &Patterns, received: Option<Result<Ticket, ScanError>>) -> (r: AggregatorAction)
    ensures
        match verdict_on(received) {
            Some(v) => r matches AggregatorAction::Finish(res) && verdict_of(res) == v,
            None => match received {
                Some(Err(e)) => r == AggregatorAction::Report(e),
                _ => r == AggregatorAction::Continue,
            },
        },
{
    match received {
        None => AggregatorAction::Finish(Ok(Scan::Failure)),
        Some(Ok(t)) => match flag_of(patterns, &t) {
            Some(flag) => AggregatorAction::Finish(Ok(Scan::Success { flag, id: t.id })),
            None => AggregatorAction::Continue,
        },
        Some(Err(e)) => match e {
            ScanError::InvalidSession => AggregatorAction::Finish(Err(e)),
            _ => AggregatorAction::Report(e),
        },
    }
}

/// The result of the run on results that arrived in the order of `items`,
/// after which the channel closed; with the errors that were reported on
/// the way, in order.
pub fn process_results(patterns: &Patterns, items: Vec<Result<Ticket, ScanError>>) -> (r: (
    Result<Scan, ScanError>,
    Vec<ScanError>,
))
    ensures
        verdict_of(r.0) == drain(items@),
        r.1@ == drain_reports(items@),
{
    let mut pending = items;
    let mut reported: Vec<ScanError> = Vec::new();
    proof {
        assert(Seq::<ScanError>::empty() + drain_reports(items@) =~= drain_reports(items@));
    }
    while pending.len() > 0
        invariant
            drain(pending@) == drain(items@),
            drain_reports(items@) == reported@ + drain_reports(pending@),
        decreases pending@.len(),
    {
        let ghost before = pending@;
        let item = pending.remove(0);
        proof {
            assert(pending@ =~= before.drop_first());
            assert(item == before[0]);
        }
        match aggregate_step(patterns, Some(item)) {
            AggregatorAction::Finish(res) => {
                proof {
                    assert(verdict_on(Some(before[0])) is Some);
                    assert(reported@ + Seq::<ScanError>::empty() =~= reported@);
                }
                return (res, reported);
            },
            AggregatorAction::Report(e) => {
                let ghost done = reported@;
                reported.push(e);
                proof {
                    assert(done + drain_reports(before) =~= reported@ + drain_reports(pending@));
                }
            },
            AggregatorAction::Continue => {},
        }
    }
    proof {
        assert(reported@ + Seq::<ScanError>::empty() =~= reported@);
    }
    (Ok(Scan::Failure), reported)
}

/// `f` is what a service with tickets at the IDs below `end` answers at
/// `id`: the ticket with that ID, or, from `end` on, "not found".
pub open spec fn answers_keyspace(f: Fetched, id: nat, end: nat) -> bool {
    if id < end {
        f matches Fetched::Ticket(t) && t.id as nat == id
    } else {
        f matches Fetched::ErrorMessage(m) && m@ == TICKET_NOT_FOUND@
    }
}

/// `service` holds tickets at exactly the IDs below `end`.
pub open spec fn keyspace_service(service: spec_fn(nat) -> Fetched, end: nat) -> bool {
    forall|id: nat| #[trigger] answers_keyspace(service(id), id, end)
}

/// A model of the worker pool: the state between turns of its workers.
pub struct PoolState {
    /// The counter.
    pub counter: nat,
    /// The workers still running.
    pub active: Set<nat>,
    /// The IDs of the tickets pushed so far, in order.
    pub delivered: Seq<nat>,
}

/// One turn of worker `w` against `service`: the worker takes an ID with
/// `Counter::next` (`counter_step`), and acts on what the fetch brought as
/// `worker_step` decides (`worker_decision`): a pushed ticket is delivered,
/// and a stop or an abort ends the worker.
pub open spec fn pool_turn(s: PoolState, service: spec_fn(nat) -> Fetched, w: nat) -> PoolState {
    let (id, counter) = counter_step(s.counter);
    if !s.active.contains(w) {
        s
    } else {
        match worker_decision(WorkerEvent::Fetched(service(id))) {
            WorkerAction::Push(Ok(t)) => PoolState {
                counter,
                active: s.active,
                delivered: s.delivered.push(t.id as nat),
            },
            WorkerAction::Push(Err(_)) => PoolState {
                counter,
                active: s.active,
                delivered: s.delivered,
            },
            _ => PoolState { counter, active: s.active.remove(w), delivered: s.delivered },
        }
    }
}

/// The pool after the workers take turns in the order of `schedule`: any
/// interleaving of the workers is such a schedule.
pub open spec fn pool_run(
    s: PoolState,
    service: spec_fn(nat) -> Fetched,
    schedule: Seq<nat>,
) -> PoolState
    decreases schedule.len(),
{
    if schedule.len() == 0 {
        s
    } else {
        pool_run(pool_turn(s, service, schedule[0]), service, schedule.drop_first())
    }
}

/// The pool of `workers` workers before any turn, with the counter at
/// `offset`.
pub open spec fn pool_start(workers: nat, offset: nat) -> PoolState {
    PoolState {
        counter: offset,
        active: Set::new(|w: nat| w < workers),
        delivered: Seq::empty(),
    }
}

/// What holds of the pool between turns.
pub open spec fn pool_inv(s: PoolState, workers: nat, offset: nat, end: nat) -> bool {
    &&& s.counter >= offset
    &&& s.delivered == Seq::new(
        (if s.counter < end { s.counter } else { end } - offset) as nat,
        |i: int| (offset + i) as nat,
    )
    &&& s.active.finite()
    &&& s.active.len() <= workers
    &&& s.counter == offset + s.delivered.len() + (workers - s.active.len())
    &&& s.active.len() < workers ==> s.counter > end
}

proof fn lemma_pool_run_invariant(
    s: PoolState,
    service: spec_fn(nat) -> Fetched,
    workers: nat,
    offset: nat,
    end: nat,
    schedule: Seq<nat>,
)
    requires
        offset <= end,
        keyspace_service(service, end),
        pool_inv(s, workers, offset, end),
    ensures
        pool_inv(pool_run(s, service, schedule), workers, offset, end),
    decreases schedule.len(),
{
    if schedule.len() > 0 {
        let w = schedule[0];
        let u = pool_turn(s, service, w);
        let id = s.counter;
        assert(answers_keyspace(service(id), id, end));
        if s.active.contains(w) {
            if id < end {
                assert(u.delivered =~= Seq::new(
                    (if u.counter < end { u.counter } else { end } - offset) as nat,
                    |i: int| (offset + i) as nat,
                ));
            } else {
                assert(u.active.len() == s.active.len() - 1);
            }
        }
        assert(pool_inv(u, workers, offset, end));
        lemma_pool_run_invariant(u, service, workers, offset, end, schedule.drop_first());
    }
}

/// Workers that share a counter starting at `offset`, against a service
/// with tickets at the IDs from `offset` up to `end`, deliver each ID of the
/// keyspace once, in increasing order of the counter, with no gap and
/// nothing else, under any interleaving after which they have all stopped;
/// each worker then took one ID past the keyspace, so the counter stands at
/// `end + workers`.
pub proof fn lemma_pool_covers_keyspace(
    workers: nat,
    offset: nat,
    end: nat,
    service: spec_fn(nat) -> Fetched,
    schedule: Seq<nat>,
)
    requires
        workers > 0,
        offset <= end,
        keyspace_service(service, end),
        pool_run(pool_start(workers, offset), service, schedule).active.is_empty(),
    ensures
        pool_run(pool_start(workers, offset), service, schedule).delivered == Seq::new(
            (end - offset) as nat,
            |i: int| (offset + i) as nat,
        ),
        pool_run(pool_start(workers, offset), service, schedule).counter == end + workers,
{
    let s = pool_start(workers, offset);
    lemma_below_len(workers);
    assert(s.delivered =~= Seq::new(
        (if s.counter < end { s.counter } else { end } - offset) as nat,
        |i: int| (offset + i) as nat,
    ));
    assert(pool_inv(s, workers, offset, end));
    lemma_pool_run_invariant(s, service, workers, offset, end, schedule);
    let t = pool_run(s, service, schedule);
    assert(t.active.len() == 0);
}

proof fn lemma_below_len(n: nat)
    ensures
        Set::new(|w: nat| w < n).finite(),
        Set::new(|w: nat| w < n).len() == n,
    decreases n,
{
    if n == 0 {
        assert(Set::new(|w: nat| w < n) =~= Set::<nat>::empty());
    } else {
        lemma_below_len((n - 1) as nat);
        assert(Set::new(|w: nat| w < n) =~= Set::new(|w: nat| w < (n - 1) as nat).insert(
            (n - 1) as nat,
        ));
    }
}

} // verus!
