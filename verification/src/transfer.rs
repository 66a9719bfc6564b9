//! One download: what to ask the server for, and what its answer means.

use crate::format::two_to;
use crate::queue::{
    find_job, first_with, jobs, lemma_first_with, put_job, Job, JobStatus, QueueJob, Status,
};
use crate::text::{concat, concat3, decimal, decimal_text, same_text};
use vstd::prelude::*;

verus! {

// ── Waiting ──────────────────────────────────────────────────────────────────
/// How many seconds to wait before an attempt: none before the first, then twice as long each
/// time, up to 64.
pub open spec fn backoff(attempt: nat) -> nat {
    if attempt == 0 {
        0
    } else {
        two_to(if attempt < 6 {
            attempt
        } else {
            6
        })
    }
}

/// How many seconds to wait before an attempt.
pub fn backoff_secs(attempt: u32) -> (secs: u64)
    ensures
        secs as nat == backoff(attempt as nat),
        secs <= 64,
{
    proof {
        reveal_with_fuel(two_to, 7);
    }
    if attempt == 0 {
        0
    } else if attempt == 1 {
        2
    } else if attempt == 2 {
        4
    } else if attempt == 3 {
        8
    } else if attempt == 4 {
        16
    } else if attempt == 5 {
        32
    } else {
        64
    }
}

/// The wait doubles from attempt to attempt, until it has reached 64 seconds.
pub proof fn law_backoff_doubles(attempt: nat)
    requires
        attempt >= 1,
    ensures
        attempt < 6 ==> backoff(attempt + 1) == 2 * backoff(attempt),
        attempt >= 6 ==> backoff(attempt) == 64,
{
    reveal_with_fuel(two_to, 7);
}

// ── What to do next ──────────────────────────────────────────────────────────
/// What follows from an answer.
pub enum Step {
    /// Try again; this is the number of the next attempt.
    Retry(u32),
    /// The download is over.
    Finish(JobStatus),
    /// Take the body: append it to the file or start the file anew. `total` is the length that
    /// the file is to have, where it is known.
    Stream { append: bool, total: Option<u64> },
}

#[verifier::ext_equal]
pub enum Next {
    Retry(nat),
    Finish(Status),
    Stream { append: bool, total: Option<nat> },
}

impl View for Step {
    type V = Next;

    open spec fn view(&self) -> Next {
        match self {
            Step::Retry(n) => Next::Retry(*n as nat),
            Step::Finish(s) => Next::Finish(s@),
            Step::Stream { append, total } => Next::Stream {
                append: *append,
                total: match total {
                    Some(t) => Some(*t as nat),
                    None => None,
                },
            },
        }
    }
}

/// What follows where an attempt failed: another one, as long as there are retries left.
pub open spec fn failed(attempt: nat, max_retries: nat, message: Seq<char>) -> Next {
    if attempt + 1 > max_retries {
        Next::Finish(Status::Error(message))
    } else {
        Next::Retry(attempt + 1)
    }
}

/// What follows where an attempt failed.
pub fn on_failure(attempt: u32, max_retries: u32, message: String) -> (step: Step)
    requires
        attempt < u32::MAX,
    ensures
        step@ == failed(attempt as nat, max_retries as nat, message@),
{
    if attempt + 1 > max_retries {
        Step::Finish(JobStatus::Error(message))
    } else {
        Step::Retry(attempt + 1)
    }
}

/// The `Range` header that asks for the rest of a file; none where nothing is there.
pub fn range_header(existing: u64) -> (header: Option<String>)
    ensures
        match header {
            Some(h) => existing > 0 && h@ == "bytes="@ + decimal(existing as nat) + "-"@,
            None => existing == 0,
        },
{
    if existing > 0 {
        Some(concat3("bytes=", decimal_text(existing).as_str(), "-"))
    } else {
        None
    }
}

/// What the server's status means. 416 says that there is nothing left to fetch; any other status
/// outside 200 to 299 is a failure; 206 says that the body is the rest of the file.
pub open spec fn answered(
    attempt: nat,
    max_retries: nat,
    existing: nat,
    code: nat,
    reason: Seq<char>,
    length: Option<nat>,
) -> Next {
    if code == 416 {
        Next::Finish(Status::Done)
    } else if code < 200 || code > 299 {
        failed(attempt, max_retries, "HTTP "@ + reason)
    } else {
        Next::Stream {
            append: code == 206 && existing > 0,
            total: match length {
                Some(n) => Some(
                    n + if code == 206 {
                        existing
                    } else {
                        0
                    },
                ),
                None => None,
            },
        }
    }
}

/// What the server's answer means. `reason` is its status in words, `length` that of its body.
pub fn on_response(
    attempt: u32,
    max_retries: u32,
    existing: u64,
    code: u16,
    reason: &str,
    length: Option<u64>,
) -> (step: Step)
    requires
        attempt < u32::MAX,
        code == 206 ==> (length matches Some(n) ==> n + existing <= u64::MAX),
    ensures
        step@ == answered(
            attempt as nat,
            max_retries as nat,
            existing as nat,
            code as nat,
            reason@,
            match length {
                Some(n) => Some(n as nat),
                None => None,
            },
        ),
{
    if code == 416 {
        return Step::Finish(JobStatus::Done);
    }
    if code < 200 || code > 299 {
        return on_failure(attempt, max_retries, concat("HTTP ", reason));
    }
    let partial: bool = code == 206;
    let total: Option<u64> = match length {
        Some(n) => Some(
            n + if partial {
                existing
            } else {
                0
            },
        ),
        None => None,
    };
    Step::Stream { append: partial && existing > 0, total }
}

/// What the end of the body means: `error` is why it broke off.
pub open spec fn streamed(attempt: nat, max_retries: nat, error: Option<Seq<char>>) -> Next {
    match error {
        None => Next::Finish(Status::Done),
        Some(e) => if e == "cancelled"@ {
            Next::Finish(Status::Paused)
        } else {
            failed(attempt, max_retries, e)
        },
    }
}

/// What the end of the body means.
pub fn on_stream_end(attempt: u32, max_retries: u32, error: Option<String>) -> (step: Step)
    requires
        attempt < u32::MAX,
    ensures
        step@ == streamed(
            attempt as nat,
            max_retries as nat,
            match error {
                Some(e) => Some(e@),
                None => None,
            },
        ),
{
    match error {
        None => Step::Finish(JobStatus::Done),
        Some(e) => if same_text(e.as_str(), "cancelled") {
            Step::Finish(JobStatus::Paused)
        } else {
            on_failure(attempt, max_retries, e)
        },
    }
}

// ── Messages ─────────────────────────────────────────────────────────────────
/// The failure where a URL gives no place to write to.
pub fn no_path_message(url: &str) -> (message: String)
    ensures
        message@ == "Cannot determine output path for "@ + url@,
{
    concat("Cannot determine output path for ", url)
}

/// The failure where a folder cannot be made.
pub fn no_folder_message(error: &str) -> (message: String)
    ensures
        message@ == "Cannot create directory: "@ + error@,
{
    concat("Cannot create directory: ", error)
}

/// The failure where a file cannot be opened.
pub fn no_file_message(path: &str, error: &str) -> (message: String)
    ensures
        message@ == "Cannot open "@ + path@ + ": "@ + error@,
{
    let head = concat3("Cannot open ", path, ": ");
    concat(head.as_str(), error)
}

// ── The course of a download ─────────────────────────────────────────────────
/// What a download waits for.
#[derive(Clone, Copy)]
pub enum Phase {
    /// For the time before another attempt to pass.
    Sleeping,
    /// To hear whether it was cancelled.
    Checking,
    /// For the place to write to.
    Placing,
    /// For the length of what lies on disk.
    Measuring,
    /// For the server's answer.
    Asking,
    /// For the file to be opened.
    Opening,
    /// For the end of the body.
    Streaming,
    /// For nothing: it is over.
    Over,
}

/// What is to be done for a download.
pub enum Action {
    /// Note the attempt in the queue and let the seconds pass.
    Sleep { attempt: u32, secs: u64 },
    /// See whether the download was cancelled.
    CheckCancel,
    /// Work out the file's place and make its folder.
    Place,
    /// Look how long the file on disk is.
    Measure,
    /// Ask the server, with the given `Range` header.
    Ask(Option<String>),
    /// Open the file, for appending or anew.
    Open { append: bool },
    /// Mark the job as downloading and take the body. The file has `existing` bytes by then and
    /// is to have `total`.
    Take { existing: u64, total: Option<u64> },
    /// Mark the job as interrupted; the download is over.
    Interrupt,
    /// The download is over.
    Finish(JobStatus),
    /// Nothing: the event does not belong to the phase.
    Nothing,
}

/// What happened.
pub enum Event {
    /// What was asked for is done.
    Done,
    /// The download was cancelled.
    Cancelled,
    /// The file's length on disk.
    Length(u64),
    /// What was asked for failed for good.
    Refused(String),
    /// The server did not answer.
    NoAnswer(String),
    /// The server answered.
    Answer { code: u16, reason: String, length: Option<u64> },
    /// The body broke off.
    BrokeOff(String),
}

#[verifier::ext_equal]
pub enum Order {
    Sleep { attempt: nat, secs: nat },
    CheckCancel,
    Place,
    Measure,
    Ask(Option<Seq<char>>),
    Open { append: bool },
    Take { existing: nat, total: Option<nat> },
    Interrupt,
    Finish(Status),
    Nothing,
}

#[verifier::ext_equal]
pub enum Signal {
    Done,
    Cancelled,
    Length(nat),
    Refused(Seq<char>),
    NoAnswer(Seq<char>),
    Answer { code: nat, reason: Seq<char>, length: Option<nat> },
    BrokeOff(Seq<char>),
}

pub open spec fn opt_nat(n: Option<u64>) -> Option<nat> {
    match n {
        Some(v) => Some(v as nat),
        None => None,
    }
}

impl View for Action {
    type V = Order;

    open spec fn view(&self) -> Order {
        match self {
            Action::Sleep { attempt, secs } => Order::Sleep {
                attempt: *attempt as nat,
                secs: *secs as nat,
            },
            Action::CheckCancel => Order::CheckCancel,
            Action::Place => Order::Place,
            Action::Measure => Order::Measure,
            Action::Ask(range) => Order::Ask(
                match range {
                    Some(r) => Some(r@),
                    None => None,
                },
            ),
            Action::Open { append } => Order::Open { append: *append },
            Action::Take { existing, total } => Order::Take {
                existing: *existing as nat,
                total: opt_nat(*total),
            },
            Action::Interrupt => Order::Interrupt,
            Action::Finish(s) => Order::Finish(s@),
            Action::Nothing => Order::Nothing,
        }
    }
}

impl View for Event {
    type V = Signal;

    open spec fn view(&self) -> Signal {
        match self {
            Event::Done => Signal::Done,
            Event::Cancelled => Signal::Cancelled,
            Event::Length(n) => Signal::Length(*n as nat),
            Event::Refused(m) => Signal::Refused(m@),
            Event::NoAnswer(m) => Signal::NoAnswer(m@),
            Event::Answer { code, reason, length } => Signal::Answer {
                code: *code as nat,
                reason: reason@,
                length: opt_nat(*length),
            },
            Event::BrokeOff(m) => Signal::BrokeOff(m@),
        }
    }
}

/// A download on its way.
pub struct Transfer {
    pub phase: Phase,
    /// The download was interrupted before.
    pub resume: bool,
    pub attempt: u32,
    pub max_retries: u32,
    /// How many bytes of the file count as fetched.
    pub existing: u64,
    /// The length that the file is to have.
    pub total: Option<u64>,
}

/// A download's state.
#[verifier::ext_equal]
pub struct Course {
    pub phase: Phase,
    pub resume: bool,
    pub attempt: nat,
    pub max_retries: nat,
    pub existing: nat,
    pub total: Option<nat>,
}

impl View for Transfer {
    type V = Course;

    open spec fn view(&self) -> Course {
        Course {
            phase: self.phase,
            resume: self.resume,
            attempt: self.attempt as nat,
            max_retries: self.max_retries as nat,
            existing: self.existing as nat,
            total: opt_nat(self.total),
        }
    }
}

impl Course {
    pub open spec fn over(self, order: Order) -> (Course, Order) {
        (Course { phase: Phase::Over, ..self }, order)
    }

    /// An attempt begins: after a wait, where it is not the first.
    pub open spec fn begin(self, attempt: nat) -> (Course, Order) {
        if attempt > 0 {
            (
                Course { phase: Phase::Sleeping, attempt, ..self },
                Order::Sleep { attempt, secs: backoff(attempt) },
            )
        } else {
            (Course { phase: Phase::Checking, attempt, ..self }, Order::CheckCancel)
        }
    }

    /// The server is asked for what comes after `existing` bytes.
    pub open spec fn ask(self, existing: nat) -> (Course, Order) {
        (
            Course { phase: Phase::Asking, existing, ..self },
            Order::Ask(
                if existing > 0 {
                    Some("bytes="@ + decimal(existing) + "-"@)
                } else {
                    None
                },
            ),
        )
    }

    pub open spec fn follow(self, next: Next) -> (Course, Order) {
        match next {
            Next::Retry(n) => self.begin(n),
            Next::Finish(s) => self.over(Order::Finish(s)),
            Next::Stream { append, total } => (
                Course { phase: Phase::Opening, total, ..self },
                Order::Open { append },
            ),
        }
    }

    /// What follows from an event.
    pub open spec fn after(self, signal: Signal) -> (Course, Order) {
        match (self.phase, signal) {
            (Phase::Sleeping, Signal::Done) => (
                Course { phase: Phase::Checking, ..self },
                Order::CheckCancel,
            ),
            (Phase::Checking, Signal::Cancelled) => self.over(Order::Interrupt),
            (Phase::Checking, Signal::Done) => (
                Course { phase: Phase::Placing, ..self },
                Order::Place,
            ),
            (Phase::Placing, Signal::Refused(m)) => self.over(Order::Finish(Status::Error(m))),
            (Phase::Placing, Signal::Done) => if self.resume || self.attempt > 0 {
                (Course { phase: Phase::Measuring, ..self }, Order::Measure)
            } else {
                self.ask(0)
            },
            (Phase::Measuring, Signal::Length(n)) => self.ask(n),
            (Phase::Asking, Signal::NoAnswer(m)) => self.follow(
                failed(self.attempt, self.max_retries, m),
            ),
            (Phase::Asking, Signal::Answer { code, reason, length }) => self.follow(
                answered(self.attempt, self.max_retries, self.existing, code, reason, length),
            ),
            (Phase::Opening, Signal::Refused(m)) => self.over(Order::Finish(Status::Error(m))),
            (Phase::Opening, Signal::Done) => (
                Course { phase: Phase::Streaming, ..self },
                Order::Take { existing: self.existing, total: self.total },
            ),
            (Phase::Streaming, Signal::Cancelled) => self.over(Order::Interrupt),
            (Phase::Streaming, Signal::BrokeOff(m)) => self.follow(
                streamed(self.attempt, self.max_retries, Some(m)),
            ),
            (Phase::Streaming, Signal::Done) => self.follow(
                streamed(self.attempt, self.max_retries, None),
            ),
            _ => (self, Order::Nothing),
        }
    }
}

impl Transfer {
    /// Begins the download of a job that has made `retry_count` attempts.
    pub fn start(resume: bool, retry_count: u32, max_retries: u32) -> (out: (Transfer, Action))
        ensures
            (out.0@, out.1@) == (Course {
                phase: Phase::Checking,
                resume,
                attempt: 0,
                max_retries: max_retries as nat,
                existing: 0,
                total: None,
            }).begin(retry_count as nat),
    {
        let mut t = Transfer {
            phase: Phase::Checking,
            resume,
            attempt: 0,
            max_retries,
            existing: 0,
            total: None,
        };
        let action = t.begin(retry_count);
        (t, action)
    }

    fn begin(&mut self, attempt: u32) -> (action: Action)
        ensures
            (final(self)@, action@) == old(self)@.begin(attempt as nat),
    {
        self.attempt = attempt;
        if attempt > 0 {
            self.phase = Phase::Sleeping;
            Action::Sleep { attempt, secs: backoff_secs(attempt) }
        } else {
            self.phase = Phase::Checking;
            Action::CheckCancel
        }
    }

    fn ask(&mut self, existing: u64) -> (action: Action)
        ensures
            (final(self)@, action@) == old(self)@.ask(existing as nat),
    {
        self.phase = Phase::Asking;
        self.existing = existing;
        Action::Ask(range_header(existing))
    }

    fn follow(&mut self, step: Step) -> (action: Action)
        ensures
            (final(self)@, action@) == old(self)@.follow(step@),
    {
        match step {
            Step::Retry(n) => self.begin(n),
            Step::Finish(s) => {
                self.phase = Phase::Over;
                Action::Finish(s)
            },
            Step::Stream { append, total } => {
                self.phase = Phase::Opening;
                self.total = total;
                Action::Open { append }
            },
        }
    }

    /// What an event leads to. The length that a partial answer gives must leave room for what is
    /// on disk.
    pub fn step(&mut self, event: Event) -> (action: Action)
        requires
            old(self).attempt < u32::MAX,
            event matches Event::Answer { code, reason, length } ==> code == 206 ==> (
            length matches Some(n) ==> n + old(self).existing <= u64::MAX),
        ensures
            (final(self)@, action@) == old(self)@.after(event@),
    {
        match (self.phase, event) {
            (Phase::Sleeping, Event::Done) => {
                self.phase = Phase::Checking;
                Action::CheckCancel
            },
            (Phase::Checking, Event::Cancelled) => {
                self.phase = Phase::Over;
                Action::Interrupt
            },
            (Phase::Checking, Event::Done) => {
                self.phase = Phase::Placing;
                Action::Place
            },
            (Phase::Placing, Event::Refused(m)) => {
                self.phase = Phase::Over;
                Action::Finish(JobStatus::Error(m))
            },
            (Phase::Placing, Event::Done) => if self.resume || self.attempt > 0 {
                self.phase = Phase::Measuring;
                Action::Measure
            } else {
                self.ask(0)
            },
            (Phase::Measuring, Event::Length(n)) => self.ask(n),
            (Phase::Asking, Event::NoAnswer(m)) => {
                let step = on_failure(self.attempt, self.max_retries, m);
                self.follow(step)
            },
            (Phase::Asking, Event::Answer { code, reason, length }) => {
                let step = on_response(
                    self.attempt,
                    self.max_retries,
                    self.existing,
                    code,
                    reason.as_str(),
                    length,
                );
                self.follow(step)
            },
            (Phase::Opening, Event::Refused(m)) => {
                self.phase = Phase::Over;
                Action::Finish(JobStatus::Error(m))
            },
            (Phase::Opening, Event::Done) => {
                self.phase = Phase::Streaming;
                Action::Take { existing: self.existing, total: self.total }
            },
            (Phase::Streaming, Event::Cancelled) => {
                self.phase = Phase::Over;
                Action::Interrupt
            },
            (Phase::Streaming, Event::BrokeOff(m)) => {
                let step = on_stream_end(self.attempt, self.max_retries, Some(m));
                self.follow(step)
            },
            (Phase::Streaming, Event::Done) => {
                let step = on_stream_end(self.attempt, self.max_retries, None);
                self.follow(step)
            },
            _ => Action::Nothing,
        }
    }
}

// ── Notes in the queue ───────────────────────────────────────────────────────
/// The queue after the first job with the given id has got its number of attempts.
pub open spec fn after_retry(queue: Seq<Job>, id: Seq<char>, attempt: u32) -> Seq<Job> {
    match first_with(queue, id) {
        Some(i) => queue.update(i, Job { retry_count: attempt, ..queue[i] }),
        None => queue,
    }
}

/// Notes in the queue which attempt a download is at, where it is not the first.
pub fn note_retry(queue: &mut Vec<QueueJob>, id: &str, attempt: u32)
    ensures
        jobs(final(queue)@) == if attempt > 0 {
            after_retry(jobs(old(queue)@), id@, attempt)
        } else {
            jobs(old(queue)@)
        },
{
    if attempt > 0 {
        match find_job(queue, id) {
            Some(i) => {
                let mut job = queue[i].clone();
                job.retry_count = attempt;
                let ghost j = job@;
                put_job(queue, i, job);
                assert(j =~= (Job { retry_count: attempt, ..jobs(old(queue)@)[i as int] }));
            },
            None => {},
        }
    }
}

// ── What a download promises ─────────────────────────────────────────────────
/// How an attempt came out: it settled the matter, or it failed with a message.
pub enum Outcome {
    Settled(Status),
    Failed(Seq<char>),
}

/// What attempts that came out so lead to, the first of them being number `attempt`; `None` while
/// they do not suffice.
pub open spec fn after_attempts(outcomes: Seq<Outcome>, attempt: nat, max_retries: nat) -> Option<
    Status,
>
    decreases outcomes.len(),
{
    if outcomes.len() == 0 {
        None
    } else {
        match outcomes[0] {
            Outcome::Settled(s) => Some(s),
            Outcome::Failed(message) => match failed(attempt, max_retries, message) {
                Next::Retry(n) => after_attempts(outcomes.skip(1), n, max_retries),
                Next::Finish(s) => Some(s),
                Next::Stream { .. } => None,
            },
        }
    }
}

/// Retries are bounded: a download is settled after its first attempt and as many retries as are
/// left to it, whatever comes out of them.
pub proof fn law_retries_bounded(outcomes: Seq<Outcome>, attempt: nat, max_retries: nat)
    requires
        outcomes.len() >= 1,
        attempt + outcomes.len() > max_retries,
    ensures
        after_attempts(outcomes, attempt, max_retries) is Some,
    decreases outcomes.len(),
{
    if attempt + 1 <= max_retries {
        law_retries_bounded(outcomes.skip(1), attempt + 1, max_retries);
    }
}

/// A download that never succeeds makes every retry that is left to it, and then fails with the
/// message of the last.
pub proof fn law_all_retries_made(
    messages: Seq<Seq<char>>,
    outcomes: Seq<Outcome>,
    attempt: nat,
    max_retries: nat,
)
    requires
        attempt <= max_retries,
        messages.len() == max_retries - attempt + 1,
        outcomes.len() == messages.len(),
        forall|i: int|
            0 <= i < messages.len() ==> #[trigger] outcomes[i] == Outcome::Failed(messages[i]),
    ensures
        after_attempts(outcomes, attempt, max_retries) == Some(Status::Error(messages.last())),
        after_attempts(outcomes.drop_last(), attempt, max_retries) is None,
    decreases outcomes.len(),
{
    assert(outcomes[0] == Outcome::Failed(messages[0]));
    if attempt < max_retries {
        let m = messages.skip(1);
        let o = outcomes.skip(1);
        assert forall|i: int| 0 <= i < m.len() implies #[trigger] o[i] == Outcome::Failed(m[i]) by {
            assert(outcomes[i + 1] == Outcome::Failed(messages[i + 1]));
        }
        law_all_retries_made(m, o, attempt + 1, max_retries);
        assert(outcomes.drop_last().skip(1) =~= o.drop_last());
        assert(outcomes.drop_last()[0] == outcomes[0]);
    } else {
        assert(outcomes.drop_last().len() == 0);
    }
}

/// However a download goes, an attempt is never more than one ahead of the one before, and none is
/// begun beyond the retries allowed.
pub proof fn law_attempts_in_bounds(course: Course, signal: Signal)
    ensures
        ({
            let (after, order) = course.after(signal);
            &&& after.max_retries == course.max_retries
            &&& after.attempt == course.attempt || after.attempt == course.attempt + 1
            &&& after.attempt != course.attempt ==> after.attempt <= course.max_retries
                && order == (Order::Sleep { attempt: after.attempt, secs: backoff(after.attempt) })
        }),
{
}

/// A download that is over stays so.
pub proof fn law_over_is_over(course: Course, signal: Signal)
    requires
        course.phase is Over,
    ensures
        course.after(signal) == (course, Order::Nothing),
{
}

/// A download that is taken up goes on from the exact byte: it asks for what comes after what is
/// there, and what comes is appended where the server sends the rest.
pub proof fn law_resume_exact(
    attempt: nat,
    max_retries: nat,
    existing: nat,
    reason: Seq<char>,
    rest: nat,
)
    requires
        existing > 0,
    ensures
        answered(attempt, max_retries, existing, 206, reason, Some(rest)) == (Next::Stream {
            append: true,
            total: Some(rest + existing),
        }),
        answered(attempt, max_retries, existing, 200, reason, Some(rest)) == (Next::Stream {
            append: false,
            total: Some(rest),
        }),
        answered(attempt, max_retries, existing, 416, reason, Some(rest)) == Next::Finish(
            Status::Done,
        ),
{
}

/// A file counts as downloaded only where its body came to its end, or where the server says that
/// nothing is left to fetch; and it always does then.
pub proof fn law_done_only_when_fetched(course: Course, signal: Signal)
    ensures
        course.after(signal).1 == Order::Finish(Status::Done) <==> (course.phase is Streaming
            && signal is Done) || (course.phase is Asking && (signal matches Signal::Answer {
            code,
            ..
        } && code == 416)),
        course.after(signal).1 is Finish ==> course.after(signal).0.phase is Over,
{
}

/// Pausing a download interrupts it, before it asks the server and while the body comes in, and
/// nothing else does.
pub proof fn law_pause_interrupts(course: Course, signal: Signal)
    ensures
        course.after(signal).1 is Interrupt <==> signal is Cancelled && (course.phase is Checking
            || course.phase is Streaming),
        course.after(signal).1 is Interrupt ==> course.after(signal).0 == (Course {
            phase: Phase::Over,
            ..course
        }),
        course.phase is Streaming && signal == Signal::BrokeOff("cancelled"@) ==> course.after(
            signal,
        ).1 == Order::Finish(Status::Paused) && course.after(signal).0.phase is Over,
{
}

/// A failure leads to another attempt while fewer than `max_retries` retries were made, after a
/// wait; with none left, the download ends with the failure's message.
pub proof fn law_failure_retries(course: Course, message: Seq<char>, code: nat, length: Option<nat>)
    ensures
        ({
            let silent = course.after(Signal::NoAnswer(message));
            let broken = course.after(Signal::BrokeOff(message));
            let refused = course.after(Signal::Answer { code, reason: message, length });
            let retry = Course { phase: Phase::Sleeping, attempt: course.attempt + 1, ..course };
            let wait = Order::Sleep {
                attempt: course.attempt + 1,
                secs: backoff(course.attempt + 1),
            };
            let end = Course { phase: Phase::Over, ..course };
            &&& course.phase is Asking && course.attempt < course.max_retries ==> silent == (
                retry,
                wait,
            )
            &&& course.phase is Asking && course.attempt >= course.max_retries ==> silent == (
                end,
                Order::Finish(Status::Error(message)),
            )
            &&& course.phase is Streaming && message != "cancelled"@ && course.attempt
                < course.max_retries ==> broken == (retry, wait)
            &&& course.phase is Streaming && message != "cancelled"@ && course.attempt
                >= course.max_retries ==> broken == (end, Order::Finish(Status::Error(message)))
            &&& course.phase is Asking && code != 416 && !(200 <= code <= 299) && course.attempt
                < course.max_retries ==> refused == (retry, wait)
            &&& course.phase is Asking && code != 416 && !(200 <= code <= 299) && course.attempt
                >= course.max_retries ==> refused == (
                end,
                Order::Finish(Status::Error("HTTP "@ + message)),
            )
        }),
{
}

/// A place or a file that cannot be had ends the download at once, with the reason.
pub proof fn law_refusal_ends(course: Course, message: Seq<char>)
    requires
        course.phase is Placing || course.phase is Opening,
    ensures
        course.after(Signal::Refused(message)) == (
            Course { phase: Phase::Over, ..course },
            Order::Finish(Status::Error(message)),
        ),
{
}

/// A fresh download asks for the whole file; one that goes on, because it was interrupted or because
/// an attempt failed, looks how much is there and asks for what comes after.
pub proof fn law_asks_for_the_rest(course: Course, existing: nat)
    ensures
        course.phase is Placing && !course.resume && course.attempt == 0 ==> course.after(
            Signal::Done,
        ) == (Course { phase: Phase::Asking, existing: 0, ..course }, Order::Ask(None)),
        course.phase is Placing && (course.resume || course.attempt > 0) ==> course.after(
            Signal::Done,
        ) == (Course { phase: Phase::Measuring, ..course }, Order::Measure),
        course.phase is Measuring && existing == 0 ==> course.after(Signal::Length(existing)) == (
            Course { phase: Phase::Asking, existing: 0, ..course },
            Order::Ask(None),
        ),
        course.phase is Measuring && existing > 0 ==> course.after(Signal::Length(existing)) == (
            Course { phase: Phase::Asking, existing, ..course },
            Order::Ask(Some("bytes="@ + decimal(existing) + "-"@)),
        ),
        course.after(Signal::Done).1 is Ask || course.after(Signal::Length(existing)).1 is Ask
            ==> course.phase is Placing || course.phase is Measuring,
{
}

/// A good answer opens the file: for appending where the server sends the rest of a file of which
/// something is there, and anew otherwise. The file is to have the length of the answer, and what is
/// there on top of it where the answer is the rest.
pub proof fn law_answer_opens_the_file(
    course: Course,
    code: nat,
    reason: Seq<char>,
    length: Option<nat>,
)
    requires
        course.phase is Asking,
        200 <= code <= 299,
    ensures
        ({
            let (after, order) = course.after(Signal::Answer { code, reason, length });
            &&& order is Open
            &&& order->append <==> code == 206 && course.existing > 0
            &&& after.phase is Opening
            &&& after == (Course { phase: Phase::Opening, total: after.total, ..course })
            &&& length is None <==> after.total is None
            &&& length is Some && code == 206 ==> after.total == Some(length->0 + course.existing)
            &&& length is Some && code != 206 ==> after.total == length
            &&& after.after(Signal::Done) == (
                Course { phase: Phase::Streaming, ..after },
                Order::Take { existing: course.existing, total: after.total },
            )
        }),
{
}

/// An attempt goes through its phases in order, and the wait before it does not change it.
pub proof fn law_attempt_begins(course: Course, attempt: nat)
    ensures
        course.begin(0) == (
            Course { phase: Phase::Checking, attempt: 0, ..course },
            Order::CheckCancel,
        ),
        attempt > 0 ==> course.begin(attempt) == (
            Course { phase: Phase::Sleeping, attempt, ..course },
            Order::Sleep { attempt, secs: backoff(attempt) },
        ),
        course.phase is Sleeping ==> course.after(Signal::Done) == (
            Course { phase: Phase::Checking, ..course },
            Order::CheckCancel,
        ),
        course.phase is Checking ==> course.after(Signal::Done) == (
            Course { phase: Phase::Placing, ..course },
            Order::Place,
        ),
        backoff(0) == 0,
        backoff(1) == 2,
{
    reveal_with_fuel(two_to, 2);
}

/// An event that does not belong to the phase changes nothing.
pub proof fn law_stray_event(course: Course, signal: Signal)
    requires
        signal is Length ==> !(course.phase is Measuring),
        signal is NoAnswer || signal is Answer ==> !(course.phase is Asking),
        signal is Cancelled ==> !(course.phase is Checking || course.phase is Streaming),
        signal is Refused ==> !(course.phase is Placing || course.phase is Opening),
        signal is BrokeOff ==> !(course.phase is Streaming),
        signal is Done ==> course.phase is Measuring || course.phase is Asking
            || course.phase is Over,
    ensures
        course.after(signal) == (course, Order::Nothing),
{
}

/// Noting an attempt changes the number of attempts of one job with the id and nothing else.
pub proof fn law_retry_noted(queue: Seq<Job>, id: Seq<char>, attempt: u32, i: int)
    requires
        0 <= i < queue.len(),
    ensures
        after_retry(queue, id, attempt).len() == queue.len(),
        queue[i].id == id && (forall|k: int| 0 <= k < i ==> (#[trigger] queue[k]).id != id)
            ==> after_retry(queue, id, attempt)[i] == (Job { retry_count: attempt, ..queue[i] }),
        queue[i].id != id || (exists|k: int| 0 <= k < i && (#[trigger] queue[k]).id == id)
            ==> after_retry(queue, id, attempt)[i] == queue[i],
{
    lemma_first_with(queue, id);
}

/// What a transfer is asked to do is what the caller sees, order by order.
pub proof fn law_orders_are_actions(action: Action, event: Event)
    ensures
        action@ is Sleep <==> action is Sleep,
        action@ is CheckCancel <==> action is CheckCancel,
        action@ is Place <==> action is Place,
        action@ is Measure <==> action is Measure,
        action@ is Ask <==> action is Ask,
        action@ is Open <==> action is Open,
        action@ is Take <==> action is Take,
        action@ is Interrupt <==> action is Interrupt,
        action@ is Finish <==> action is Finish,
        action@ is Nothing <==> action is Nothing,
        action matches Action::Open { append } ==> action@->append == append,
        action matches Action::Finish(s) ==> action@ == Order::Finish(s@),
        event@ is Done <==> event is Done,
        event@ is Cancelled <==> event is Cancelled,
        event@ is Length <==> event is Length,
        event@ is Refused <==> event is Refused,
        event@ is NoAnswer <==> event is NoAnswer,
        event@ is Answer <==> event is Answer,
        event@ is BrokeOff <==> event is BrokeOff,
{
}

} // verus!
