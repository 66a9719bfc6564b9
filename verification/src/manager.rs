//! The download manager: which jobs it takes in hand, and what becomes of them.

use crate::queue::{
    after_status, count_jobs, find_job, first_with, jobs, lemma_first_with, number_of, put_job,
    set_status, Job, JobStatus, Kind, QueueJob, Status,
};
use crate::strmap::StrSet;
use crate::text::same_text;
use vstd::prelude::*;

verus! {

// ── Commands ─────────────────────────────────────────────────────────────────
/// What the manager hears.
pub enum Command {
    /// Stop, or nobody is there any more to give commands.
    Shutdown,
    /// Interrupt the job with the given id.
    Cancel(String),
    /// So many jobs may be in hand from now on.
    SetConcurrent(usize),
    /// Look for waiting jobs: on request, or because a second has passed.
    Kick,
}

/// What the manager does.
pub enum Reaction {
    Stop,
    Interrupt(String),
    /// Start waiting jobs, up to so many in hand. `fresh` says that the slots are counted anew.
    Start { concurrent: usize, fresh: bool },
}

/// What the manager does on a command. `concurrent` is what the settings allow.
pub fn on_command(command: Command, concurrent: usize) -> (reaction: Reaction)
    ensures
        match command {
            Command::Shutdown => reaction is Stop,
            Command::Cancel(id) => reaction == Reaction::Interrupt(id),
            Command::SetConcurrent(n) => reaction == (Reaction::Start {
                concurrent: n,
                fresh: true,
            }),
            Command::Kick => reaction == (Reaction::Start { concurrent, fresh: false }),
        },
{
    match command {
        Command::Shutdown => Reaction::Stop,
        Command::Cancel(id) => Reaction::Interrupt(id),
        Command::SetConcurrent(n) => Reaction::Start { concurrent: n, fresh: true },
        Command::Kick => Reaction::Start { concurrent, fresh: false },
    }
}

/// Whether the queue is to be looked through: it runs, jobs wait, and there is room.
pub fn should_kick(queue: &Vec<QueueJob>, paused: bool, active: usize, concurrent: usize) -> (kick:
    bool)
    ensures
        kick == (!paused && number_of(jobs(queue@), Kind::Waiting) > 0 && active < concurrent),
{
    !paused && count_jobs(queue, Kind::Waiting) > 0 && active < concurrent
}

// ── A job's way through the manager ──────────────────────────────────────────
/// Whether a picked job is really started: no thread has it, and it is not in hand.
pub open spec fn may_start(queue: Seq<Job>, running: Set<Seq<char>>, id: Seq<char>) -> bool {
    !running.contains(id) && match first_with(queue, id) {
        Some(i) => !queue[i].status.active(),
        None => true,
    }
}

/// Takes a picked job in hand, unless a thread has it already. True where it was taken.
pub fn start_job(
    queue: &mut Vec<QueueJob>,
    running: &mut StrSet,
    active: &mut usize,
    id: &str,
) -> (started: bool)
    requires
        old(running).wf(),
        *old(active) < usize::MAX,
    ensures
        final(running).wf(),
        started == may_start(jobs(old(queue)@), old(running)@, id@),
        started ==> {
            &&& jobs(final(queue)@) == after_status(jobs(old(queue)@), id@, Status::Spooling)
            &&& final(running)@ == old(running)@.insert(id@)
            &&& *final(active) == *old(active) + 1
        },
        !started ==> {
            &&& jobs(final(queue)@) == jobs(old(queue)@)
            &&& final(running)@ == old(running)@
            &&& *final(active) == *old(active)
        },
{
    if running.contains(id) {
        return false;
    }
    match find_job(queue, id) {
        Some(i) => {
            if queue[i].status.is_active() {
                return false;
            }
        },
        None => {},
    }
    set_status(queue, id, JobStatus::Spooling);
    running.insert(id.to_owned());
    *active = *active + 1;
    true
}

/// The queue after the job with the given id has got a slot.
pub open spec fn after_slot(queue: Seq<Job>, id: Seq<char>) -> Seq<Job> {
    match first_with(queue, id) {
        Some(i) => if queue[i].status is Spooling {
            queue.update(i, queue[i].with_status(Status::Downloading))
        } else {
            queue
        },
        None => queue,
    }
}

/// The job with the given id has got a slot: it downloads, if it is still spooling.
pub fn begin_download(queue: &mut Vec<QueueJob>, id: &str)
    ensures
        jobs(final(queue)@) == after_slot(jobs(old(queue)@), id@),
{
    match find_job(queue, id) {
        Some(i) => {
            if queue[i].status.is_spooling() {
                set_status(queue, id, JobStatus::Downloading);
            }
        },
        None => {},
    }
}

/// The queue after the job with the given id was checked.
pub open spec fn after_check(queue: Seq<Job>, id: Seq<char>, verified: Option<bool>) -> Seq<Job> {
    match first_with(queue, id) {
        Some(i) => queue.update(i, Job { verified, status: Status::Done, ..queue[i] }),
        None => queue,
    }
}

/// The job with the given id was checked: it is done, and what the check said is noted.
pub fn note_check(queue: &mut Vec<QueueJob>, id: &str, verified: Option<bool>)
    ensures
        jobs(final(queue)@) == after_check(jobs(old(queue)@), id@, verified),
{
    match find_job(queue, id) {
        Some(i) => {
            let mut job = queue[i].clone();
            job.verified = verified;
            job.status = JobStatus::Done;
            let ghost j = job@;
            put_job(queue, i, job);
            assert(j =~= (Job { verified, status: Status::Done, ..jobs(old(queue)@)[i as int] }));
        },
        None => {},
    }
}

/// The queue after the download of the job with the given id came to an end: its status is the
/// end's, unless it was interrupted meanwhile.
pub open spec fn after_end(queue: Seq<Job>, id: Seq<char>, status: Status) -> Seq<Job> {
    match first_with(queue, id) {
        Some(i) => if queue[i].status is Paused {
            queue
        } else {
            queue.update(i, queue[i].with_status(status))
        },
        None => queue,
    }
}

/// The download of the job with the given id came to an end.
pub fn note_end(queue: &mut Vec<QueueJob>, id: &str, status: JobStatus)
    ensures
        jobs(final(queue)@) == after_end(jobs(old(queue)@), id@, status@),
{
    match find_job(queue, id) {
        Some(i) => {
            if !queue[i].status.is_paused() {
                set_status(queue, id, status);
            }
        },
        None => {},
    }
}

/// The jobs that are not done, in their order.
pub open spec fn not_done(queue: Seq<Job>) -> Seq<Job>
    decreases queue.len(),
{
    if queue.len() == 0 {
        Seq::empty()
    } else {
        let head = not_done(queue.drop_last());
        if queue.last().status is Done {
            head
        } else {
            head.push(queue.last())
        }
    }
}

/// Whether the job with the given id is done.
pub open spec fn is_complete(queue: Seq<Job>, id: Seq<char>) -> bool {
    match first_with(queue, id) {
        Some(i) => queue[i].status is Done,
        None => false,
    }
}

/// The thread of the job with the given id ends: done jobs leave the queue. True where the job is
/// done.
pub fn close_job(queue: &mut Vec<QueueJob>, active: &mut usize, id: &str) -> (complete: bool)
    ensures
        complete == is_complete(jobs(old(queue)@), id@),
        jobs(final(queue)@) == not_done(jobs(old(queue)@)),
        *final(active) == if *old(active) > 0 {
            (*old(active) - 1) as usize
        } else {
            0
        },
{
    let complete: bool = match find_job(queue, id) {
        Some(i) => queue[i].status.is_done(),
        None => false,
    };
    if *active > 0 {
        *active = *active - 1;
    }
    let ghost view = jobs(queue@);
    let mut kept: Vec<QueueJob> = Vec::new();
    let mut i: usize = 0;
    assert(jobs(kept@) =~= Seq::<Job>::empty());
    while i < queue.len()
        invariant
            view == jobs(queue@),
            i <= queue@.len(),
            jobs(kept@) == not_done(view.take(i as int)),
        decreases queue@.len() - i,
    {
        let ghost before = jobs(kept@);
        proof {
            assert(view.take(i + 1).drop_last() =~= view.take(i as int));
            assert(view.take(i + 1).last() == queue@[i as int]@);
        }
        if !queue[i].status.is_done() {
            let job = queue[i].clone();
            let ghost j = job@;
            kept.push(job);
            assert(jobs(kept@) =~= before.push(j));
        }
        i = i + 1;
    }
    assert(view.take(queue@.len() as int) =~= view);
    *queue = kept;
    complete
}

/// What the record of the downloaded files becomes after the thread of a job has ended: a file that
/// is complete goes in, and nothing else does. `stored` is the record as it is kept, `None` where
/// it cannot be read; `None` comes back where the record stays as it is.
pub fn note_downloaded(stored: Option<StrSet>, url: &str, complete: bool) -> (record: Option<
    StrSet,
>)
    requires
        stored matches Some(set) ==> set.wf(),
    ensures
        record is Some <==> complete && stored is Some,
        record matches Some(set) ==> set.wf() && set@ == stored->0@.insert(url@),
{
    if !complete {
        return None;
    }
    match stored {
        Some(set) => {
            let mut record = set;
            record.insert(url.to_owned());
            Some(record)
        },
        None => None,
    }
}

/// Whether some job with the given id is in hand.
pub open spec fn in_hand(queue: Seq<Job>, id: Seq<char>) -> bool {
    exists|i: int|
        0 <= i < queue.len() && (#[trigger] queue[i]).id == id && queue[i].status.active()
}

/// Whether some job with the given id is in hand.
pub fn still_in_hand(queue: &Vec<QueueJob>, id: &str) -> (yes: bool)
    ensures
        yes == in_hand(jobs(queue@), id@),
{
    let ghost view = jobs(queue@);
    let mut i: usize = 0;
    while i < queue.len()
        invariant
            view == jobs(queue@),
            i <= queue@.len(),
            forall|k: int|
                0 <= k < i ==> !((#[trigger] view[k]).id == id@ && view[k].status.active()),
        decreases queue@.len() - i,
    {
        assert(view[i as int] == queue@[i as int]@);
        if same_text(queue[i].id.as_str(), id) && queue[i].status.is_active() {
            return true;
        }
        i = i + 1;
    }
    false
}

/// The threads whose jobs are still in hand.
pub fn keep_running(running: &mut StrSet, queue: &Vec<QueueJob>)
    requires
        old(running).wf(),
    ensures
        final(running).wf(),
        forall|id: Seq<char>| #[trigger]
            final(running)@.contains(id) <==> old(running)@.contains(id) && in_hand(
                jobs(queue@),
                id,
            ),
{
    let mut kept = StrSet::new();
    let n: usize = running.len();
    let ghost order = running.order();
    proof {
        running.lemma_order();
    }
    let mut i: usize = 0;
    while i < n
        invariant
            *running == *old(running),
            running.wf(),
            order == running.order(),
            i <= n == order.len(),
            kept.wf(),
            forall|id: Seq<char>| #[trigger]
                kept@.contains(id) <==> order.take(i as int).contains(id) && in_hand(
                    jobs(queue@),
                    id,
                ),
        decreases n - i,
    {
        let id = running.at(i);
        proof {
            assert(order.take(i + 1) =~= order.take(i as int).push(order[i as int]));
            assert forall|x: Seq<char>| #[trigger] order.take(i + 1).contains(x) <==> order.take(
                i as int,
            ).contains(x) || x == order[i as int] by {
                if order.take(i as int).contains(x) {
                    let k = choose|k: int|
                        0 <= k < order.take(i as int).len() && order.take(i as int)[k] == x;
                    assert(order.take(i + 1)[k] == x);
                }
                assert(order.take(i + 1)[i as int] == order[i as int]);
            }
        }
        if still_in_hand(queue, id.as_str()) {
            kept.insert(id.clone());
        }
        i = i + 1;
    }
    proof {
        assert(order.take(n as int) =~= order);
        assert forall|id: Seq<char>| #[trigger] kept@.contains(id) <==> running@.contains(id)
            && in_hand(jobs(queue@), id) by {
            assert(order.to_set().contains(id) <==> order.contains(id));
        }
    }
    *running = kept;
}

// ── The terminal program's manager ───────────────────────────────────────────
/// A job of the terminal program has got a slot.
pub fn begin_plain(queue: &mut Vec<QueueJob>, active: &mut usize, id: &str)
    requires
        *old(active) < usize::MAX,
    ensures
        jobs(final(queue)@) == after_status(jobs(old(queue)@), id@, Status::Spooling),
        *final(active) == *old(active) + 1,
{
    *active = *active + 1;
    set_status(queue, id, JobStatus::Spooling);
}

/// The queue after a job of the terminal program came to an end: one that is done needs not be
/// taken up again.
pub open spec fn after_plain_end(queue: Seq<Job>, id: Seq<char>, status: Status) -> Seq<Job> {
    match first_with(queue, id) {
        Some(i) => queue.update(
            i,
            Job {
                status,
                resume: if status is Done {
                    false
                } else {
                    queue[i].resume
                },
                ..queue[i]
            },
        ),
        None => queue,
    }
}

/// A job of the terminal program came to an end.
pub fn end_plain(queue: &mut Vec<QueueJob>, active: &mut usize, id: &str, status: JobStatus)
    ensures
        jobs(final(queue)@) == after_plain_end(jobs(old(queue)@), id@, status@),
        *final(active) == if *old(active) > 0 {
            (*old(active) - 1) as usize
        } else {
            0
        },
{
    if *active > 0 {
        *active = *active - 1;
    }
    match find_job(queue, id) {
        Some(i) => {
            let mut job = queue[i].clone();
            if status.is_done() {
                job.resume = false;
            }
            let ghost s = status@;
            job.status = status;
            let ghost j = job@;
            put_job(queue, i, job);
            assert(j =~= after_plain_end(jobs(old(queue)@), id@, s)[i as int]);
        },
        None => {},
    }
}

// ── What the manager promises ────────────────────────────────────────────────
/// An interruption is not lost: a job that was interrupted while it was downloading stays
/// interrupted when its download ends.
pub proof fn law_interruption_stays(queue: Seq<Job>, id: Seq<char>, status: Status)
    requires
        first_with(queue, id) matches Some(i) ==> queue[i].status is Paused,
    ensures
        after_end(queue, id, status) == queue,
{
}

/// A closed job leaves the queue when it is done and only then; nothing else is lost.
pub proof fn law_only_done_leave(queue: Seq<Job>)
    ensures
        forall|i: int|
            0 <= i < not_done(queue).len() ==> !((#[trigger] not_done(queue)[i]).status is Done)
                && queue.contains(not_done(queue)[i]),
        forall|i: int|
            0 <= i < queue.len() && !((#[trigger] queue[i]).status is Done) ==> not_done(
                queue,
            ).contains(queue[i]),
    decreases queue.len(),
{
    if queue.len() > 0 {
        let head = queue.drop_last();
        law_only_done_leave(head);
        let before = not_done(head);
        let after = not_done(queue);
        assert forall|i: int| 0 <= i < after.len() implies !((#[trigger] after[i]).status is Done)
            && queue.contains(after[i]) by {
            if i < before.len() {
                assert(after[i] == before[i]);
                let k = choose|k: int| 0 <= k < head.len() && head[k] == before[i];
                assert(queue[k] == after[i]);
            } else {
                assert(queue[queue.len() - 1] == after[i]);
            }
        }
        assert forall|i: int|
            0 <= i < queue.len() && !((#[trigger] queue[i]).status is Done) implies after.contains(
            queue[i],
        ) by {
            if i < head.len() {
                assert(head[i] == queue[i]);
                let k = choose|k: int| 0 <= k < before.len() && before[k] == queue[i];
                assert(after[k] == queue[i]);
            } else {
                assert(after[before.len() as int] == queue[i]);
            }
        }
    }
}

/// What becomes of a job in hand changes that job, the first with the id, and no other. A job that
/// gets a slot downloads, where it was spooling; one that was checked is done, with what the check
/// found; one whose download ended has the end's state, unless it was interrupted.
pub proof fn law_one_job_moves(
    queue: Seq<Job>,
    id: Seq<char>,
    verified: Option<bool>,
    status: Status,
    i: int,
)
    requires
        0 <= i < queue.len(),
    ensures
        after_slot(queue, id).len() == queue.len(),
        after_check(queue, id, verified).len() == queue.len(),
        after_end(queue, id, status).len() == queue.len(),
        after_plain_end(queue, id, status).len() == queue.len(),
        queue[i].id == id && (forall|k: int| 0 <= k < i ==> (#[trigger] queue[k]).id != id) ==> {
            &&& queue[i].status is Spooling ==> after_slot(queue, id)[i] == (Job {
                status: Status::Downloading,
                ..queue[i]
            })
            &&& !(queue[i].status is Spooling) ==> after_slot(queue, id)[i] == queue[i]
            &&& after_check(queue, id, verified)[i] == (Job {
                verified,
                status: Status::Done,
                ..queue[i]
            })
            &&& queue[i].status is Paused ==> after_end(queue, id, status)[i] == queue[i]
            &&& !(queue[i].status is Paused) ==> after_end(queue, id, status)[i] == (Job {
                status,
                ..queue[i]
            })
            &&& status is Done ==> after_plain_end(queue, id, status)[i] == (Job {
                status,
                resume: false,
                ..queue[i]
            })
            &&& !(status is Done) ==> after_plain_end(queue, id, status)[i] == (Job {
                status,
                ..queue[i]
            })
        },
        queue[i].id != id || (exists|k: int| 0 <= k < i && (#[trigger] queue[k]).id == id) ==> {
            &&& after_slot(queue, id)[i] == queue[i]
            &&& after_check(queue, id, verified)[i] == queue[i]
            &&& after_end(queue, id, status)[i] == queue[i]
            &&& after_plain_end(queue, id, status)[i] == queue[i]
        },
{
    lemma_first_with(queue, id);
}

/// A job is started where no thread has it and it is not in hand, so never twice at a time.
pub proof fn law_started_once(
    queue: Seq<Job>,
    running: Set<Seq<char>>,
    id: Seq<char>,
    i: int,
)
    ensures
        running.contains(id) ==> !may_start(queue, running, id),
        0 <= i < queue.len() && queue[i].id == id && (forall|k: int|
            0 <= k < i ==> (#[trigger] queue[k]).id != id) && !running.contains(id) ==> (may_start(
            queue,
            running,
            id,
        ) <==> !(queue[i].status is Spooling || queue[i].status is Downloading
            || queue[i].status is Verifying)),
{
    lemma_first_with(queue, id);
}

/// Done jobs leave the queue, and the others stay in their order; a job is complete where it is
/// done, so a job that was interrupted or failed is not.
pub proof fn law_closing(queue: Seq<Job>, job: Job, id: Seq<char>, i: int)
    ensures
        not_done(Seq::empty()) == Seq::<Job>::empty(),
        job.status is Done ==> not_done(queue.push(job)) == not_done(queue),
        !(job.status is Done) ==> not_done(queue.push(job)) == not_done(queue).push(job),
        0 <= i < queue.len() && queue[i].id == id && (forall|k: int|
            0 <= k < i ==> (#[trigger] queue[k]).id != id) ==> (is_complete(queue, id) <==>
        queue[i].status is Done),
        (forall|k: int| 0 <= k < queue.len() ==> (#[trigger] queue[k]).id != id) ==> !is_complete(
            queue,
            id,
        ),
{
    lemma_first_with(queue, id);
    assert(queue.push(job).drop_last() =~= queue);
}

/// A job is in hand where one with its id is spooling, downloading or verifying.
pub proof fn law_in_hand(queue: Seq<Job>, id: Seq<char>, i: int)
    ensures
        0 <= i < queue.len() && queue[i].id == id && (queue[i].status is Spooling
            || queue[i].status is Downloading || queue[i].status is Verifying) ==> in_hand(
            queue,
            id,
        ),
        (forall|k: int|
            0 <= k < queue.len() && (#[trigger] queue[k]).id == id ==> queue[k].status is Waiting
                || queue[k].status is Paused || queue[k].status is Done
                || queue[k].status is Error) ==> !in_hand(queue, id),
{
}

} // verus!
