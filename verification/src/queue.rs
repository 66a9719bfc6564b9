//! The download queue.

use crate::search::first_of;
use crate::strmap::StrSet;
use crate::text::{
    law_zero_padded, numeral, padded_numeral, push_numeral, same_text, texts, trim_end_of,
    trim_end_slashes, zero_padded,
};
use vstd::prelude::*;

verus! {

// ── Jobs ─────────────────────────────────────────────────────────────────────
/// Where a job stands.
pub enum JobStatus {
    Waiting,
    Spooling,
    Downloading,
    Paused,
    Verifying,
    Done,
    Error(String),
}

#[verifier::ext_equal]
pub enum Status {
    Waiting,
    Spooling,
    Downloading,
    Paused,
    Verifying,
    Done,
    Error(Seq<char>),
}

impl View for JobStatus {
    type V = Status;

    open spec fn view(&self) -> Status {
        match self {
            JobStatus::Waiting => Status::Waiting,
            JobStatus::Spooling => Status::Spooling,
            JobStatus::Downloading => Status::Downloading,
            JobStatus::Paused => Status::Paused,
            JobStatus::Verifying => Status::Verifying,
            JobStatus::Done => Status::Done,
            JobStatus::Error(e) => Status::Error(e@),
        }
    }
}

impl Status {
    /// A job that a download thread has in hand.
    pub open spec fn active(self) -> bool {
        self is Spooling || self is Downloading || self is Verifying
    }

    /// The status as the window shows it.
    pub open spec fn text(self) -> Seq<char> {
        match self {
            Status::Waiting => "○ waiting"@,
            Status::Spooling => "◌ spooling"@,
            Status::Downloading => "⟳ active"@,
            Status::Paused => "⏸ paused"@,
            Status::Verifying => "⧗ verifying"@,
            Status::Done => "✓ done"@,
            Status::Error(_) => "✕ error"@,
        }
    }

    /// The status as the terminal shows it.
    pub open spec fn plain_text(self) -> Seq<char> {
        match self {
            Status::Waiting => "waiting"@,
            Status::Spooling => "spooling"@,
            Status::Downloading => "active"@,
            Status::Paused => "paused"@,
            Status::Verifying => "verify"@,
            Status::Done => "done"@,
            Status::Error(_) => "error"@,
        }
    }
}

impl JobStatus {
    pub fn label(&self) -> (text: &'static str)
        ensures
            text@ == self@.text(),
    {
        match self {
            JobStatus::Waiting => "○ waiting",
            JobStatus::Spooling => "◌ spooling",
            JobStatus::Downloading => "⟳ active",
            JobStatus::Paused => "⏸ paused",
            JobStatus::Verifying => "⧗ verifying",
            JobStatus::Done => "✓ done",
            JobStatus::Error(_) => "✕ error",
        }
    }

    pub fn plain_label(&self) -> (text: &'static str)
        ensures
            text@ == self@.plain_text(),
    {
        match self {
            JobStatus::Waiting => "waiting",
            JobStatus::Spooling => "spooling",
            JobStatus::Downloading => "active",
            JobStatus::Paused => "paused",
            JobStatus::Verifying => "verify",
            JobStatus::Done => "done",
            JobStatus::Error(_) => "error",
        }
    }

    pub fn is_active(&self) -> (active: bool)
        ensures
            active == self@.active(),
    {
        match self {
            JobStatus::Spooling | JobStatus::Downloading | JobStatus::Verifying => true,
            _ => false,
        }
    }

    pub fn is_waiting(&self) -> (waiting: bool)
        ensures
            waiting == (self@ is Waiting),
    {
        match self {
            JobStatus::Waiting => true,
            _ => false,
        }
    }

    pub fn is_paused(&self) -> (paused: bool)
        ensures
            paused == (self@ is Paused),
    {
        match self {
            JobStatus::Paused => true,
            _ => false,
        }
    }

    pub fn is_done(&self) -> (done: bool)
        ensures
            done == (self@ is Done),
    {
        match self {
            JobStatus::Done => true,
            _ => false,
        }
    }

    pub fn is_error(&self) -> (failed: bool)
        ensures
            failed == (self@ is Error),
    {
        match self {
            JobStatus::Error(_) => true,
            _ => false,
        }
    }

    pub fn is_spooling(&self) -> (spooling: bool)
        ensures
            spooling == (self@ is Spooling),
    {
        match self {
            JobStatus::Spooling => true,
            _ => false,
        }
    }
}

impl Clone for JobStatus {
    fn clone(&self) -> (copy: Self)
        ensures
            copy@ == self@,
    {
        match self {
            JobStatus::Waiting => JobStatus::Waiting,
            JobStatus::Spooling => JobStatus::Spooling,
            JobStatus::Downloading => JobStatus::Downloading,
            JobStatus::Paused => JobStatus::Paused,
            JobStatus::Verifying => JobStatus::Verifying,
            JobStatus::Done => JobStatus::Done,
            JobStatus::Error(e) => JobStatus::Error(e.clone()),
        }
    }
}

/// A file in the queue.
pub struct QueueJob {
    pub id: String,
    pub url: String,
    pub name: String,
    pub path: String,
    pub status: JobStatus,
    pub resume: bool,
    pub retry_count: u32,
    pub verified: Option<bool>,
    pub file_size: u64,
}

/// What the queue says of a file.
#[verifier::ext_equal]
pub struct Job {
    pub id: Seq<char>,
    pub url: Seq<char>,
    pub name: Seq<char>,
    pub path: Seq<char>,
    pub status: Status,
    pub resume: bool,
    pub retry_count: u32,
    pub verified: Option<bool>,
    pub file_size: u64,
}

impl View for QueueJob {
    type V = Job;

    open spec fn view(&self) -> Job {
        Job {
            id: self.id@,
            url: self.url@,
            name: self.name@,
            path: self.path@,
            status: self.status@,
            resume: self.resume,
            retry_count: self.retry_count,
            verified: self.verified,
            file_size: self.file_size,
        }
    }
}

impl Clone for QueueJob {
    fn clone(&self) -> (copy: Self)
        ensures
            copy@ == self@,
    {
        QueueJob {
            id: self.id.clone(),
            url: self.url.clone(),
            name: self.name.clone(),
            path: self.path.clone(),
            status: self.status.clone(),
            resume: self.resume,
            retry_count: self.retry_count,
            verified: self.verified,
            file_size: self.file_size,
        }
    }
}

pub open spec fn jobs(queue: Seq<QueueJob>) -> Seq<Job> {
    queue.map_values(|j: QueueJob| j@)
}

impl Job {
    /// The job, interrupted.
    pub open spec fn paused(self) -> Job {
        Job { status: Status::Paused, resume: true, ..self }
    }

    /// The job, to be taken up again.
    pub open spec fn resumed(self) -> Job {
        Job { status: Status::Waiting, resume: true, ..self }
    }

    /// The job as it is saved: one that is in hand waits to be taken up again.
    pub open spec fn saved(self) -> Job {
        if self.status.active() {
            self.resumed()
        } else {
            self
        }
    }

    pub open spec fn with_status(self, status: Status) -> Job {
        Job { status, ..self }
    }
}

/// Appends a copy of a job.
fn push_copy(list: &mut Vec<QueueJob>, job: &QueueJob)
    ensures
        jobs(final(list)@) == jobs(old(list)@).push(job@),
{
    let copy = job.clone();
    list.push(copy);
    assert(jobs(list@) =~= jobs(old(list)@).push(job@));
}

/// Puts a job into place `i`.
pub fn put_job(queue: &mut Vec<QueueJob>, i: usize, job: QueueJob)
    requires
        i < old(queue)@.len(),
    ensures
        jobs(final(queue)@) == jobs(old(queue)@).update(i as int, job@),
{
    queue.set(i, job);
    assert(jobs(queue@) =~= jobs(old(queue)@).update(i as int, job@));
}

// ── Saving ───────────────────────────────────────────────────────────────────
/// The queue as it is saved.
pub fn save_queue(queue: &Vec<QueueJob>) -> (saved: Vec<QueueJob>)
    ensures
        jobs(saved@) == jobs(queue@).map_values(|j: Job| j.saved()),
{
    let ghost view = jobs(queue@);
    let ghost wanted = view.map_values(|j: Job| j.saved());
    let mut saved: Vec<QueueJob> = Vec::new();
    let mut i: usize = 0;
    assert(jobs(saved@) =~= wanted.take(0));
    while i < queue.len()
        invariant
            view == jobs(queue@),
            wanted == view.map_values(|j: Job| j.saved()),
            i <= queue@.len(),
            jobs(saved@) == wanted.take(i as int),
        decreases queue@.len() - i,
    {
        let mut job = queue[i].clone();
        if job.status.is_active() {
            job.status = JobStatus::Waiting;
            job.resume = true;
        }
        let ghost before = jobs(saved@);
        let ghost j = job@;
        saved.push(job);
        proof {
            assert(view[i as int] == queue@[i as int]@);
            assert(j =~= wanted[i as int]);
            assert(jobs(saved@) =~= before.push(j));
            assert(wanted.take(i + 1) =~= wanted.take(i as int).push(wanted[i as int]));
        }
        i = i + 1;
    }
    assert(wanted.take(queue@.len() as int) =~= wanted);
    saved
}

/// Saving loses no job, leaves none in hand, and changes nothing when it is done again.
pub proof fn law_saved_queue(queue: Seq<Job>)
    ensures
        ({
            let saved = queue.map_values(|j: Job| j.saved());
            &&& saved.len() == queue.len()
            &&& forall|i: int|
                0 <= i < saved.len() ==> {
                    &&& !(#[trigger] saved[i]).status.active()
                    &&& saved[i].url == queue[i].url
                    &&& saved[i].id == queue[i].id
                    &&& queue[i].status.active() ==> saved[i].status is Waiting && saved[i].resume
                }
            &&& saved.map_values(|j: Job| j.saved()) == saved
        }),
{
    let saved = queue.map_values(|j: Job| j.saved());
    assert(saved.map_values(|j: Job| j.saved()) =~= saved);
}

// ── Finding ──────────────────────────────────────────────────────────────────
/// Where the first job with the given id stands.
pub open spec fn first_with(queue: Seq<Job>, id: Seq<char>) -> Option<int>
    decreases queue.len(),
{
    if queue.len() == 0 {
        None
    } else {
        match first_with(queue.drop_last(), id) {
            Some(i) => Some(i),
            None => if queue.last().id == id {
                Some(queue.len() - 1)
            } else {
                None
            },
        }
    }
}

pub proof fn lemma_first_with(queue: Seq<Job>, id: Seq<char>)
    ensures
        match first_with(queue, id) {
            Some(i) => 0 <= i < queue.len() && queue[i].id == id && forall|j: int|
                0 <= j < i ==> (#[trigger] queue[j]).id != id,
            None => forall|j: int| 0 <= j < queue.len() ==> (#[trigger] queue[j]).id != id,
        },
    decreases queue.len(),
{
    if queue.len() > 0 {
        let head = queue.drop_last();
        lemma_first_with(head, id);
        assert forall|j: int| 0 <= j < head.len() implies head[j] == queue[j] by {}
        if first_with(queue, id) is None {
            assert forall|j: int| 0 <= j < queue.len() implies (#[trigger] queue[j]).id != id by {
                if j < head.len() {
                    assert(head[j].id != id);
                }
            }
        } else if first_with(head, id) is Some {
            let i = first_with(head, id)->0;
            assert forall|j: int| 0 <= j < i implies (#[trigger] queue[j]).id != id by {
                assert(head[j].id != id);
            }
        } else {
            assert forall|j: int| 0 <= j < queue.len() - 1 implies (#[trigger] queue[j]).id
                != id by {
                assert(head[j].id != id);
            }
        }
    }
}

/// Where the first job with the given id stands.
pub fn find_job(queue: &Vec<QueueJob>, id: &str) -> (at: Option<usize>)
    ensures
        match at {
            Some(i) => first_with(jobs(queue@), id@) == Some(i as int) && i < queue@.len(),
            None => first_with(jobs(queue@), id@) is None,
        },
{
    let ghost view = jobs(queue@);
    let mut i: usize = 0;
    while i < queue.len()
        invariant
            view == jobs(queue@),
            i <= queue@.len(),
            first_with(view.take(i as int), id@) is None,
        decreases queue@.len() - i,
    {
        proof {
            assert(view.take(i + 1).drop_last() =~= view.take(i as int));
            assert(view.take(i + 1).last() == queue@[i as int]@);
        }
        if same_text(queue[i].id.as_str(), id) {
            proof {
                assert(first_with(view.take(i + 1), id@) == Some(i as int));
                lemma_first_with_prefix(view, id@, i + 1);
            }
            return Some(i);
        }
        i = i + 1;
    }
    assert(view.take(queue@.len() as int) =~= view);
    None
}

proof fn lemma_first_with_prefix(queue: Seq<Job>, id: Seq<char>, n: int)
    requires
        0 <= n <= queue.len(),
        first_with(queue.take(n), id) is Some,
    ensures
        first_with(queue, id) == first_with(queue.take(n), id),
    decreases queue.len(),
{
    if n < queue.len() {
        let head = queue.drop_last();
        assert(head.take(n) =~= queue.take(n));
        lemma_first_with_prefix(head, id, n);
    } else {
        assert(queue.take(n) =~= queue);
    }
}

/// The queue after the first job with the given id was interrupted.
pub open spec fn after_pause(queue: Seq<Job>, id: Seq<char>) -> Seq<Job> {
    match first_with(queue, id) {
        Some(i) => queue.update(i, queue[i].paused()),
        None => queue,
    }
}

/// Interrupts the job with the given id.
pub fn pause_job(queue: &mut Vec<QueueJob>, id: &str)
    ensures
        jobs(final(queue)@) == after_pause(jobs(old(queue)@), id@),
{
    match find_job(queue, id) {
        Some(i) => {
            let mut job = queue[i].clone();
            job.status = JobStatus::Paused;
            job.resume = true;
            let ghost j = job@;
            put_job(queue, i, job);
            assert(j =~= jobs(old(queue)@)[i as int].paused());
        },
        None => {},
    }
}

/// The queue after the first job with the given id was set to wait for being taken up again.
pub open spec fn after_resume(queue: Seq<Job>, id: Seq<char>) -> Seq<Job> {
    match first_with(queue, id) {
        Some(i) => queue.update(i, queue[i].resumed()),
        None => queue,
    }
}

/// Sets the job with the given id to wait for being taken up again.
pub fn resume_job(queue: &mut Vec<QueueJob>, id: &str)
    ensures
        jobs(final(queue)@) == after_resume(jobs(old(queue)@), id@),
{
    match find_job(queue, id) {
        Some(i) => {
            let mut job = queue[i].clone();
            job.status = JobStatus::Waiting;
            job.resume = true;
            let ghost j = job@;
            put_job(queue, i, job);
            assert(j =~= jobs(old(queue)@)[i as int].resumed());
        },
        None => {},
    }
}

/// The queue after the first job with the given id got a status.
pub open spec fn after_status(queue: Seq<Job>, id: Seq<char>, status: Status) -> Seq<Job> {
    match first_with(queue, id) {
        Some(i) => queue.update(i, queue[i].with_status(status)),
        None => queue,
    }
}

/// Gives the job with the given id a status.
pub fn set_status(queue: &mut Vec<QueueJob>, id: &str, status: JobStatus)
    ensures
        jobs(final(queue)@) == after_status(jobs(old(queue)@), id@, status@),
{
    match find_job(queue, id) {
        Some(i) => {
            let mut job = queue[i].clone();
            let ghost s = status@;
            job.status = status;
            let ghost j = job@;
            put_job(queue, i, job);
            assert(j =~= jobs(old(queue)@)[i as int].with_status(s));
        },
        None => {},
    }
}

// ── Counting ─────────────────────────────────────────────────────────────────
/// What jobs are counted by.
#[derive(Clone, Copy)]
pub enum Kind {
    Active,
    Waiting,
    Paused,
    Failed,
    Done,
    Spooling,
}

impl Status {
    pub open spec fn is_of(self, kind: Kind) -> bool {
        match kind {
            Kind::Active => self.active(),
            Kind::Waiting => self is Waiting,
            Kind::Paused => self is Paused,
            Kind::Failed => self is Error,
            Kind::Done => self is Done,
            Kind::Spooling => self is Spooling,
        }
    }
}

impl JobStatus {
    pub fn is_of(&self, kind: Kind) -> (yes: bool)
        ensures
            yes == self@.is_of(kind),
    {
        match kind {
            Kind::Active => self.is_active(),
            Kind::Waiting => self.is_waiting(),
            Kind::Paused => self.is_paused(),
            Kind::Failed => self.is_error(),
            Kind::Done => self.is_done(),
            Kind::Spooling => self.is_spooling(),
        }
    }
}

/// How many jobs are of the kind.
pub open spec fn number_of(queue: Seq<Job>, kind: Kind) -> nat
    decreases queue.len(),
{
    if queue.len() == 0 {
        0
    } else {
        number_of(queue.drop_last(), kind) + if queue.last().status.is_of(kind) {
            1nat
        } else {
            0nat
        }
    }
}

/// How many jobs are of the kind.
pub fn count_jobs(queue: &Vec<QueueJob>, kind: Kind) -> (n: usize)
    ensures
        n == number_of(jobs(queue@), kind),
        n <= queue@.len(),
{
    let ghost view = jobs(queue@);
    let mut n: usize = 0;
    let mut i: usize = 0;
    while i < queue.len()
        invariant
            view == jobs(queue@),
            i <= queue@.len(),
            n <= i,
            n == number_of(view.take(i as int), kind),
        decreases queue@.len() - i,
    {
        proof {
            assert(view.take(i + 1).drop_last() =~= view.take(i as int));
            assert(view.take(i + 1).last() == queue@[i as int]@);
        }
        if queue[i].status.is_of(kind) {
            n = n + 1;
        }
        i = i + 1;
    }
    assert(view.take(queue@.len() as int) =~= view);
    n
}

// ── Adding ───────────────────────────────────────────────────────────────────
/// A job's id: the counter in hexadecimal, in at least eight digits.
pub open spec fn id_text(counter: nat) -> Seq<char> {
    zero_padded(numeral(counter, 16), 8)
}

/// The id of the job that got the counter.
pub fn next_id(counter: u64) -> (id: String)
    ensures
        id@ == id_text(counter as nat),
{
    padded_numeral(counter, 16, 8)
}

/// An id made of the time: milliseconds and nanoseconds in hexadecimal.
pub fn time_id(millis: u128, nanos: u32) -> (id: String)
    ensures
        id@ == numeral(millis as nat, 16) + numeral(nanos as nat, 16),
{
    let mut id = String::new();
    push_numeral(&mut id, millis, 16);
    push_numeral(&mut id, nanos as u128, 16);
    assert(id@ =~= numeral(millis as nat, 16) + numeral(nanos as nat, 16));
    id
}

/// A job that nothing has been done for.
pub open spec fn new_job(
    id: Seq<char>,
    url: Seq<char>,
    name: Seq<char>,
    path: Seq<char>,
    file_size: u64,
) -> Job {
    Job {
        id,
        url,
        name,
        path,
        status: Status::Waiting,
        resume: false,
        retry_count: 0,
        verified: None,
        file_size,
    }
}

/// Appends a job that nothing has been done for.
fn push_new(
    queue: &mut Vec<QueueJob>,
    id: String,
    url: String,
    name: String,
    path: String,
    file_size: u64,
)
    ensures
        jobs(final(queue)@) == jobs(old(queue)@).push(
            new_job(id@, url@, name@, path@, file_size),
        ),
{
    let job = QueueJob {
        id,
        url,
        name,
        path,
        status: JobStatus::Waiting,
        resume: false,
        retry_count: 0,
        verified: None,
        file_size,
    };
    let ghost j = job@;
    queue.push(job);
    assert(jobs(queue@) =~= jobs(old(queue)@).push(j));
}

/// The path that a job of the open folder shows.
pub open spec fn shown_path(current: Seq<char>) -> Seq<char> {
    if current.len() == 0 {
        "/"@
    } else {
        current
    }
}

/// The path that a job of the open folder shows.
pub fn job_path(current: &str) -> (path: String)
    ensures
        path@ == shown_path(current@),
{
    if current.unicode_len() == 0 {
        "/".to_owned()
    } else {
        current.to_owned()
    }
}

/// Queues a file unless its URL is queued. True where it was added.
pub fn add_to_queue(
    queue: &mut Vec<QueueJob>,
    queued: &mut StrSet,
    id: String,
    url: String,
    name: String,
    path: String,
    file_size: u64,
) -> (added: bool)
    requires
        old(queued).wf(),
    ensures
        final(queued).wf(),
        added == !old(queued)@.contains(url@),
        final(queued)@ == old(queued)@.insert(url@),
        jobs(final(queue)@) == if added {
            jobs(old(queue)@).push(new_job(id@, url@, name@, path@, file_size))
        } else {
            jobs(old(queue)@)
        },
{
    if queued.contains(url.as_str()) {
        assert(old(queued)@.insert(url@) =~= old(queued)@);
        return false;
    }
    queued.insert(url.clone());
    push_new(queue, id, url, name, path, file_size);
    true
}

/// No two jobs have one URL, and each URL is marked as queued.
pub open spec fn no_duplicates(queue: Seq<Job>, queued: Set<Seq<char>>) -> bool {
    &&& forall|i: int, j: int|
        0 <= i < j < queue.len() ==> (#[trigger] queue[i]).url != (#[trigger] queue[j]).url
    &&& forall|i: int| 0 <= i < queue.len() ==> queued.contains((#[trigger] queue[i]).url)
}

/// Queueing files one by one never queues one twice.
pub proof fn law_queued_once(queue: Seq<Job>, queued: Set<Seq<char>>, job: Job)
    requires
        no_duplicates(queue, queued),
    ensures
        no_duplicates(
            if queued.contains(job.url) {
                queue
            } else {
                queue.push(job)
            },
            queued.insert(job.url),
        ),
{
    let after = queue.push(job);
    assert forall|i: int, j: int| 0 <= i < j < after.len() implies (#[trigger] after[i]).url != (
    #[trigger] after[j]).url || queued.contains(job.url) by {
        if j < queue.len() {
            assert(queue[i].url != queue[j].url);
        } else {
            assert(queued.contains(queue[i].url));
        }
    }
}

/// A file that a scan found, with its size in bytes.
pub struct ScannedFile {
    pub url: String,
    pub name: String,
    pub file_size: u64,
}

#[verifier::ext_equal]
pub struct ScanRow {
    pub url: Seq<char>,
    pub name: Seq<char>,
    pub file_size: u64,
}

impl View for ScannedFile {
    type V = ScanRow;

    open spec fn view(&self) -> ScanRow {
        ScanRow { url: self.url@, name: self.name@, file_size: self.file_size }
    }
}

pub open spec fn scanned(files: Seq<ScannedFile>) -> Seq<ScanRow> {
    files.map_values(|f: ScannedFile| f@)
}

/// The jobs for the files of a scan, in their order, without those that are downloaded or queued.
/// The first job gets the id of `counter`, the next one the following.
pub open spec fn scan_jobs(
    files: Seq<ScanRow>,
    queued: Set<Seq<char>>,
    downloaded: Set<Seq<char>>,
    path: Seq<char>,
    counter: nat,
) -> Seq<Job>
    decreases files.len(),
{
    if files.len() == 0 {
        Seq::empty()
    } else {
        let head = scan_jobs(files.drop_last(), queued, downloaded, path, counter);
        let f = files.last();
        if downloaded.contains(f.url) || queued.contains(f.url) {
            head
        } else {
            head.push(new_job(id_text(counter + head.len()), f.url, f.name, path, f.file_size))
        }
    }
}

/// Queues the files of a scan of `folder` that are neither downloaded nor queued. Returns how many.
pub fn queue_scan(
    queue: &mut Vec<QueueJob>,
    files: &Vec<ScannedFile>,
    queued: &StrSet,
    downloaded: &StrSet,
    folder: &str,
    counter: u64,
) -> (added: usize)
    requires
        queued.wf(),
        downloaded.wf(),
        counter + files@.len() <= u64::MAX,
    ensures
        jobs(final(queue)@) == jobs(old(queue)@) + scan_jobs(
            scanned(files@),
            queued@,
            downloaded@,
            trim_end_of(folder@, '/'),
            counter as nat,
        ),
        added == scan_jobs(
            scanned(files@),
            queued@,
            downloaded@,
            trim_end_of(folder@, '/'),
            counter as nat,
        ).len(),
{
    let path = trim_end_slashes(folder);
    let ghost view = scanned(files@);
    let ghost start = jobs(queue@);
    let mut added: usize = 0;
    let mut i: usize = 0;
    assert(jobs(queue@) =~= start + scan_jobs(
        view.take(0),
        queued@,
        downloaded@,
        path@,
        counter as nat,
    ));
    while i < files.len()
        invariant
            view == scanned(files@),
            queued.wf(),
            downloaded.wf(),
            counter + files@.len() <= u64::MAX,
            added <= i <= files@.len(),
            jobs(queue@) == start + scan_jobs(
                view.take(i as int),
                queued@,
                downloaded@,
                path@,
                counter as nat,
            ),
            added == scan_jobs(
                view.take(i as int),
                queued@,
                downloaded@,
                path@,
                counter as nat,
            ).len(),
        decreases files@.len() - i,
    {
        let f = &files[i];
        let ghost before = jobs(queue@);
        proof {
            assert(view.take(i + 1).drop_last() =~= view.take(i as int));
            assert(view.take(i + 1).last() == f@);
        }
        if !downloaded.contains(f.url.as_str()) && !queued.contains(f.url.as_str()) {
            let id = next_id(counter + added as u64);
            push_new(queue, id, f.url.clone(), f.name.clone(), path.clone(), f.file_size);
            added = added + 1;
            assert(jobs(queue@) =~= start + scan_jobs(
                view.take(i + 1),
                queued@,
                downloaded@,
                path@,
                counter as nat,
            ));
        }
        i = i + 1;
    }
    assert(view.take(files@.len() as int) =~= view);
    added
}

// ── Starting ─────────────────────────────────────────────────────────────────
/// The waiting jobs that are to be taken up again, or those that are not, in their order.
pub open spec fn waiting_jobs(queue: Seq<Job>, resume: bool) -> Seq<Job>
    decreases queue.len(),
{
    if queue.len() == 0 {
        Seq::empty()
    } else {
        let head = waiting_jobs(queue.drop_last(), resume);
        if queue.last().status is Waiting && queue.last().resume == resume {
            head.push(queue.last())
        } else {
            head
        }
    }
}

/// How many more jobs may be in hand.
pub open spec fn free_slots(queue: Seq<Job>, concurrent: nat) -> nat {
    let active = number_of(queue, Kind::Active);
    if active < concurrent {
        (concurrent - active) as nat
    } else {
        0
    }
}

/// The jobs to start: as many waiting ones as there are free slots, interrupted ones first, in
/// the queue's order. None while the queue is paused.
pub open spec fn jobs_to_start(queue: Seq<Job>, concurrent: nat, paused: bool) -> Seq<Job> {
    if paused {
        Seq::empty()
    } else {
        first_of(
            waiting_jobs(queue, true) + waiting_jobs(queue, false),
            free_slots(queue, concurrent),
        )
    }
}

fn push_waiting(list: &mut Vec<QueueJob>, queue: &Vec<QueueJob>, resume: bool)
    ensures
        jobs(final(list)@) == jobs(old(list)@) + waiting_jobs(jobs(queue@), resume),
{
    let ghost view = jobs(queue@);
    let ghost start = jobs(list@);
    let mut i: usize = 0;
    assert(jobs(list@) =~= start + waiting_jobs(view.take(0), resume));
    while i < queue.len()
        invariant
            view == jobs(queue@),
            i <= queue@.len(),
            jobs(list@) == start + waiting_jobs(view.take(i as int), resume),
        decreases queue@.len() - i,
    {
        proof {
            assert(view.take(i + 1).drop_last() =~= view.take(i as int));
            assert(view.take(i + 1).last() == queue@[i as int]@);
        }
        if queue[i].status.is_waiting() && queue[i].resume == resume {
            push_copy(list, &queue[i]);
            assert(jobs(list@) =~= start + waiting_jobs(view.take(i + 1), resume));
        }
        i = i + 1;
    }
    assert(view.take(queue@.len() as int) =~= view);
}

/// The jobs to start.
pub fn pick_jobs(queue: &Vec<QueueJob>, concurrent: usize, paused: bool) -> (picked: Vec<QueueJob>)
    ensures
        jobs(picked@) == jobs_to_start(jobs(queue@), concurrent as nat, paused),
{
    let mut picked: Vec<QueueJob> = Vec::new();
    assert(jobs(picked@) =~= Seq::<Job>::empty());
    if paused {
        return picked;
    }
    let active: usize = count_jobs(queue, Kind::Active);
    let slots: usize = if active < concurrent {
        concurrent - active
    } else {
        0
    };
    push_waiting(&mut picked, queue, true);
    push_waiting(&mut picked, queue, false);
    let ghost all = jobs(picked@);
    assert(all =~= waiting_jobs(jobs(queue@), true) + waiting_jobs(jobs(queue@), false));
    if picked.len() > slots {
        picked.truncate(slots);
        assert(jobs(picked@) =~= all.take(slots as int));
    } else if picked.len() == slots {
        assert(all.take(slots as int) =~= all);
    }
    picked
}

/// Never more jobs are in hand than allowed: with those that are started there are at most
/// `concurrent`, or none is started.
pub proof fn law_concurrency_limit(queue: Seq<Job>, concurrent: nat, paused: bool)
    ensures
        jobs_to_start(queue, concurrent, paused).len() > 0 ==> number_of(queue, Kind::Active)
            + jobs_to_start(queue, concurrent, paused).len() <= concurrent,
{
}

/// Interrupted downloads go first: where a job that was not interrupted is started, every waiting
/// job that was interrupted is started before it.
pub proof fn law_resume_first(queue: Seq<Job>, concurrent: nat, paused: bool, i: int)
    requires
        0 <= i < jobs_to_start(queue, concurrent, paused).len(),
        !jobs_to_start(queue, concurrent, paused)[i].resume,
    ensures
        waiting_jobs(queue, true).len() <= i,
        jobs_to_start(queue, concurrent, paused).take(waiting_jobs(queue, true).len() as int)
            == waiting_jobs(queue, true),
{
    let first = waiting_jobs(queue, true);
    lemma_waiting_jobs(queue, true);
    let picked = jobs_to_start(queue, concurrent, paused);
    if i < first.len() {
        assert(picked[i] == first[i]);
    }
    assert(picked.take(first.len() as int) =~= first);
}

proof fn lemma_waiting_jobs(queue: Seq<Job>, resume: bool)
    ensures
        forall|i: int|
            0 <= i < waiting_jobs(queue, resume).len() ==> {
                let job = #[trigger] waiting_jobs(queue, resume)[i];
                job.status is Waiting && job.resume == resume && queue.contains(job)
            },
    decreases queue.len(),
{
    if queue.len() > 0 {
        let head = queue.drop_last();
        lemma_waiting_jobs(head, resume);
        assert forall|i: int| 0 <= i < waiting_jobs(queue, resume).len() implies ({
            let job = #[trigger] waiting_jobs(queue, resume)[i];
            job.status is Waiting && job.resume == resume && queue.contains(job)
        }) by {
            let job = waiting_jobs(queue, resume)[i];
            if i < waiting_jobs(head, resume).len() {
                assert(job == waiting_jobs(head, resume)[i]);
                let k = choose|k: int| 0 <= k < head.len() && head[k] == job;
                assert(queue[k] == job);
            } else {
                assert(queue[queue.len() - 1] == job);
            }
        }
    }
}

/// Only waiting jobs of the queue are started.
pub proof fn law_only_waiting_start(queue: Seq<Job>, concurrent: nat, paused: bool)
    ensures
        forall|i: int|
            0 <= i < jobs_to_start(queue, concurrent, paused).len() ==> {
                let job = #[trigger] jobs_to_start(queue, concurrent, paused)[i];
                job.status is Waiting && queue.contains(job)
            },
{
    lemma_waiting_jobs(queue, true);
    lemma_waiting_jobs(queue, false);
    let picked = jobs_to_start(queue, concurrent, paused);
    let first = waiting_jobs(queue, true);
    let second = waiting_jobs(queue, false);
    assert forall|i: int| 0 <= i < picked.len() implies ({
        let job = #[trigger] picked[i];
        job.status is Waiting && queue.contains(job)
    }) by {
        if i < first.len() {
            assert(picked[i] == first[i]);
        } else {
            assert(picked[i] == second[i - first.len()]);
        }
    }
}

// ── Removing and interrupting ────────────────────────────────────────────────
/// The queue and the queued URLs.
#[verifier::ext_equal]
pub struct QueueState {
    pub queue: Seq<Job>,
    pub queued: Set<Seq<char>>,
}

impl QueueState {
    /// Without the first job that has the given id.
    pub open spec fn without(self, id: Seq<char>) -> QueueState {
        match first_with(self.queue, id) {
            Some(i) => QueueState {
                queue: self.queue.remove(i),
                queued: self.queued.remove(self.queue[i].url),
            },
            None => self,
        }
    }

    /// Without the jobs that have the given ids, one after the other.
    pub open spec fn without_all(self, ids: Seq<Seq<char>>) -> QueueState
        decreases ids.len(),
    {
        if ids.len() == 0 {
            self
        } else {
            self.without_all(ids.drop_last()).without(ids.last())
        }
    }
}

pub open spec fn state_of(queue: Seq<QueueJob>, queued: StrSet) -> QueueState {
    QueueState { queue: jobs(queue), queued: queued@ }
}

/// Takes the job with the given id out of the queue.
pub fn remove_from_queue(queue: &mut Vec<QueueJob>, queued: &mut StrSet, id: &str)
    requires
        old(queued).wf(),
    ensures
        final(queued).wf(),
        state_of(final(queue)@, *final(queued)) == state_of(old(queue)@, *old(queued)).without(id@),
{
    match find_job(queue, id) {
        Some(i) => {
            let job = queue.remove(i);
            assert(jobs(queue@) =~= jobs(old(queue)@).remove(i as int));
            queued.remove(job.url.as_str());
        },
        None => {},
    }
}

/// Takes the jobs with the given ids out of the queue.
pub fn remove_jobs(queue: &mut Vec<QueueJob>, queued: &mut StrSet, ids: &Vec<String>)
    requires
        old(queued).wf(),
    ensures
        final(queued).wf(),
        state_of(final(queue)@, *final(queued)) == state_of(old(queue)@, *old(queued)).without_all(
            texts(ids@),
        ),
{
    let ghost view = texts(ids@);
    let ghost start = state_of(queue@, *queued);
    let mut i: usize = 0;
    while i < ids.len()
        invariant
            view == texts(ids@),
            i <= ids@.len(),
            queued.wf(),
            state_of(queue@, *queued) == start.without_all(view.take(i as int)),
        decreases ids@.len() - i,
    {
        proof {
            assert(view.take(i + 1).drop_last() =~= view.take(i as int));
            assert(view.take(i + 1).last() == ids@[i as int]@);
        }
        remove_from_queue(queue, queued, ids[i].as_str());
        i = i + 1;
    }
    assert(view.take(ids@.len() as int) =~= view);
}

/// The jobs whose id is among `ids`, or those whose id is not, in their order.
pub open spec fn jobs_among(queue: Seq<Job>, ids: Set<Seq<char>>, among: bool) -> Seq<Job>
    decreases queue.len(),
{
    if queue.len() == 0 {
        Seq::empty()
    } else {
        let head = jobs_among(queue.drop_last(), ids, among);
        if ids.contains(queue.last().id) == among {
            head.push(queue.last())
        } else {
            head
        }
    }
}

/// Keeps the jobs whose id is among `ids`, or those whose id is not.
fn keep_among(queue: &mut Vec<QueueJob>, ids: &StrSet, among: bool)
    requires
        ids.wf(),
    ensures
        jobs(final(queue)@) == jobs_among(jobs(old(queue)@), ids@, among),
{
    let ghost view = jobs(queue@);
    let mut kept: Vec<QueueJob> = Vec::new();
    let mut i: usize = 0;
    assert(jobs(kept@) =~= Seq::<Job>::empty());
    while i < queue.len()
        invariant
            view == jobs(queue@),
            ids.wf(),
            i <= queue@.len(),
            jobs(kept@) == jobs_among(view.take(i as int), ids@, among),
        decreases queue@.len() - i,
    {
        proof {
            assert(view.take(i + 1).drop_last() =~= view.take(i as int));
            assert(view.take(i + 1).last() == queue@[i as int]@);
        }
        if ids.contains(queue[i].id.as_str()) == among {
            push_copy(&mut kept, &queue[i]);
        }
        i = i + 1;
    }
    assert(view.take(queue@.len() as int) =~= view);
    *queue = kept;
}

/// The URLs of the jobs.
pub open spec fn urls_of(queue: Seq<Job>) -> Seq<Seq<char>> {
    queue.map_values(|j: Job| j.url)
}

/// The ids of the jobs.
pub open spec fn ids_of(queue: Seq<Job>) -> Seq<Seq<char>> {
    queue.map_values(|j: Job| j.id)
}

/// The URLs of the jobs.
pub fn queue_urls(queue: &Vec<QueueJob>) -> (urls: StrSet)
    ensures
        urls.wf(),
        urls@ == urls_of(jobs(queue@)).to_set(),
{
    let mut list: Vec<String> = Vec::new();
    let mut i: usize = 0;
    while i < queue.len()
        invariant
            i <= queue@.len(),
            list@.len() == i,
            forall|k: int| 0 <= k < i ==> (#[trigger] list@[k])@ == queue@[k].url@,
        decreases queue@.len() - i,
    {
        list.push(queue[i].url.clone());
        i = i + 1;
    }
    assert(texts(list@) =~= urls_of(jobs(queue@)));
    StrSet::of(&list)
}

/// The ids of the jobs.
pub fn queue_ids(queue: &Vec<QueueJob>) -> (ids: StrSet)
    ensures
        ids.wf(),
        ids@ == ids_of(jobs(queue@)).to_set(),
{
    let mut list: Vec<String> = Vec::new();
    let mut i: usize = 0;
    while i < queue.len()
        invariant
            i <= queue@.len(),
            list@.len() == i,
            forall|k: int| 0 <= k < i ==> (#[trigger] list@[k])@ == queue@[k].id@,
        decreases queue@.len() - i,
    {
        list.push(queue[i].id.clone());
        i = i + 1;
    }
    assert(texts(list@) =~= ids_of(jobs(queue@)));
    StrSet::of(&list)
}

/// Removes the selected jobs. Of the queued URLs those stay that the queue still has.
pub fn remove_queue_sel(queue: &mut Vec<QueueJob>, queued: &mut StrSet, selected: &mut StrSet)
    requires
        old(queued).wf(),
        old(selected).wf(),
    ensures
        final(queued).wf(),
        final(selected).wf(),
        final(selected)@ == Set::<Seq<char>>::empty(),
        jobs(final(queue)@) == jobs_among(jobs(old(queue)@), old(selected)@, false),
        final(queued)@ == old(queued)@.intersect(urls_of(jobs(final(queue)@)).to_set()),
{
    keep_among(queue, selected, false);
    selected.clear();
    let urls = queue_urls(queue);
    queued.keep_in(&urls);
}

/// Forgets the queued URLs and the selected ids that the queue does not have.
pub fn sync_with_queue(queue: &Vec<QueueJob>, queued: &mut StrSet, selected: &mut StrSet)
    requires
        old(queued).wf(),
        old(selected).wf(),
    ensures
        final(queued).wf(),
        final(selected).wf(),
        final(queued)@ == old(queued)@.intersect(urls_of(jobs(queue@)).to_set()),
        final(selected)@ == old(selected)@.intersect(ids_of(jobs(queue@)).to_set()),
{
    let urls = queue_urls(queue);
    let ids = queue_ids(queue);
    queued.keep_in(&urls);
    selected.keep_in(&ids);
}

/// The ids of the jobs that are not selected.
pub fn unselected_ids(queue: &Vec<QueueJob>, selected: &StrSet) -> (ids: Vec<String>)
    requires
        selected.wf(),
    ensures
        texts(ids@) == ids_of(jobs_among(jobs(queue@), selected@, false)),
{
    let ghost view = jobs(queue@);
    let mut ids: Vec<String> = Vec::new();
    let mut i: usize = 0;
    assert(texts(ids@) =~= ids_of(jobs_among(view.take(0), selected@, false)));
    while i < queue.len()
        invariant
            view == jobs(queue@),
            selected.wf(),
            i <= queue@.len(),
            texts(ids@) == ids_of(jobs_among(view.take(i as int), selected@, false)),
        decreases queue@.len() - i,
    {
        let ghost before = texts(ids@);
        proof {
            assert(view.take(i + 1).drop_last() =~= view.take(i as int));
            assert(view.take(i + 1).last() == queue@[i as int]@);
        }
        if !selected.contains(queue[i].id.as_str()) {
            ids.push(queue[i].id.clone());
            proof {
                assert(texts(ids@) =~= before.push(queue@[i as int].id@));
                assert(texts(ids@) =~= ids_of(jobs_among(view.take(i + 1), selected@, false)));
            }
        }
        i = i + 1;
    }
    assert(view.take(queue@.len() as int) =~= view);
    ids
}

/// Removes everything but the selected jobs, and forgets the selection. Returns the ids of the
/// removed jobs.
pub fn keep_selected(queue: &mut Vec<QueueJob>, queued: &mut StrSet, selected: &mut StrSet) -> (
    removed: Vec<String>)
    requires
        old(queued).wf(),
        old(selected).wf(),
    ensures
        final(queued).wf(),
        final(selected).wf(),
        final(selected)@ == Set::<Seq<char>>::empty(),
        texts(removed@) == ids_of(jobs_among(jobs(old(queue)@), old(selected)@, false)),
        state_of(final(queue)@, *final(queued)) == state_of(old(queue)@, *old(queued)).without_all(
            ids_of(jobs_among(jobs(old(queue)@), old(selected)@, false)),
        ),
{
    let removed = unselected_ids(queue, selected);
    remove_jobs(queue, queued, &removed);
    selected.clear();
    removed
}

proof fn lemma_distinct_head(queue: Seq<Job>)
    requires
        distinct_ids(queue),
        queue.len() > 0,
    ensures
        distinct_ids(queue.drop_last()),
{
    let head = queue.drop_last();
    assert forall|i: int, j: int| 0 <= i < j < head.len() implies (#[trigger] head[i]).id != (
    #[trigger] head[j]).id by {
        assert(queue[i].id != queue[j].id);
    }
}

/// Taking the job with a further id out of what is left.
proof fn lemma_remove_one(queue: Seq<Job>, gone: Set<Seq<char>>, id: Seq<char>)
    requires
        distinct_ids(queue),
    ensures
        ({
            let left = jobs_among(queue, gone, false);
            let after = jobs_among(queue, gone.insert(id), false);
            match first_with(left, id) {
                Some(i) => left.remove(i) == after,
                None => left == after,
            }
        }),
    decreases queue.len(),
{
    let left = jobs_among(queue, gone, false);
    let after = jobs_among(queue, gone.insert(id), false);
    lemma_first_with(left, id);
    if queue.len() > 0 {
        let head = queue.drop_last();
        lemma_distinct_head(queue);
        lemma_remove_one(head, gone, id);
        let left_head = jobs_among(head, gone, false);
        lemma_first_with(left_head, id);
        lemma_among_from(head, gone, false);
        let last = queue.last();
        if last.id == id {
            assert(first_with(left_head, id) is None) by {
                if first_with(left_head, id) is Some {
                    let k = first_with(left_head, id)->0;
                    assert(head.contains(left_head[k]));
                    let m = choose|m: int| 0 <= m < head.len() && head[m] == left_head[k];
                    assert(queue[m].id != queue[queue.len() - 1].id);
                }
            }
            if !gone.contains(id) {
                assert(left.drop_last() =~= left_head);
                assert(left.remove(left.len() - 1) =~= left_head);
            }
        } else if !gone.contains(last.id) {
            assert(left.drop_last() =~= left_head);
            if let Some(i) = first_with(left_head, id) {
                assert(left.remove(i) =~= left_head.remove(i).push(last));
            }
        }
    }
}

proof fn lemma_among_from(queue: Seq<Job>, ids: Set<Seq<char>>, among: bool)
    ensures
        forall|i: int|
            0 <= i < jobs_among(queue, ids, among).len() ==> {
                let job = #[trigger] jobs_among(queue, ids, among)[i];
                queue.contains(job) && ids.contains(job.id) == among
            },
        forall|i: int|
            0 <= i < queue.len() && ids.contains((#[trigger] queue[i]).id) == among ==> jobs_among(
                queue,
                ids,
                among,
            ).contains(queue[i]),
    decreases queue.len(),
{
    if queue.len() > 0 {
        let head = queue.drop_last();
        lemma_among_from(head, ids, among);
        let before = jobs_among(head, ids, among);
        let after = jobs_among(queue, ids, among);
        assert forall|i: int| 0 <= i < after.len() implies ({
            let job = #[trigger] after[i];
            queue.contains(job) && ids.contains(job.id) == among
        }) by {
            if i < before.len() {
                assert(after[i] == before[i]);
                let k = choose|k: int| 0 <= k < head.len() && head[k] == before[i];
                assert(queue[k] == after[i]);
            } else {
                assert(queue[queue.len() - 1] == after[i]);
            }
        }
        assert forall|i: int|
            0 <= i < queue.len() && ids.contains((#[trigger] queue[i]).id)
                == among implies after.contains(queue[i]) by {
            if i < head.len() {
                assert(head[i] == queue[i]);
                let k = choose|k: int| 0 <= k < before.len() && before[k] == queue[i];
                assert(after[k] == queue[i]);
            } else {
                assert(after[before.len() as int] == queue[i]);
            }
        }
    }
}

/// Removing jobs by their ids leaves the others, in their order, where no two jobs have one id.
pub proof fn law_remove_jobs(state: QueueState, ids: Seq<Seq<char>>)
    requires
        distinct_ids(state.queue),
    ensures
        state.without_all(ids).queue == jobs_among(state.queue, ids.to_set(), false),
    decreases ids.len(),
{
    if ids.len() == 0 {
        lemma_among_none(state.queue, ids.to_set());
    } else {
        let before = ids.drop_last();
        law_remove_jobs(state, before);
        lemma_remove_one(state.queue, before.to_set(), ids.last());
        assert(before.push(ids.last()) =~= ids);
        before.lemma_push_to_set_commute(ids.last());
    }
}

proof fn lemma_among_none(queue: Seq<Job>, ids: Set<Seq<char>>)
    requires
        forall|id: Seq<char>| !ids.contains(id),
    ensures
        jobs_among(queue, ids, false) == queue,
    decreases queue.len(),
{
    if queue.len() > 0 {
        lemma_among_none(queue.drop_last(), ids);
        assert(queue.drop_last().push(queue.last()) =~= queue);
    } else {
        assert(queue =~= Seq::<Job>::empty());
    }
}

proof fn lemma_among_swap(queue: Seq<Job>, a: Set<Seq<char>>, b: Set<Seq<char>>)
    requires
        forall|i: int|
            0 <= i < queue.len() ==> a.contains((#[trigger] queue[i]).id) == !b.contains(
                queue[i].id,
            ),
    ensures
        jobs_among(queue, a, false) == jobs_among(queue, b, true),
    decreases queue.len(),
{
    if queue.len() > 0 {
        let head = queue.drop_last();
        assert forall|i: int| 0 <= i < head.len() implies a.contains((#[trigger] head[i]).id)
            == !b.contains(head[i].id) by {
            assert(queue[i] == head[i]);
        }
        lemma_among_swap(head, a, b);
        assert(a.contains(queue[queue.len() - 1].id) == !b.contains(queue.last().id));
    }
}

/// Removing everything but the selection leaves the selected jobs, in their order, where no two
/// jobs have one id.
pub proof fn law_keep_selected(state: QueueState, selected: Set<Seq<char>>)
    requires
        distinct_ids(state.queue),
    ensures
        state.without_all(ids_of(jobs_among(state.queue, selected, false))).queue == jobs_among(
            state.queue,
            selected,
            true,
        ),
{
    let queue = state.queue;
    let gone = jobs_among(queue, selected, false);
    let ids = ids_of(gone);
    law_remove_jobs(state, ids);
    lemma_among_from(queue, selected, false);
    assert forall|i: int| 0 <= i < queue.len() implies ids.to_set().contains(
        (#[trigger] queue[i]).id,
    ) == !selected.contains(queue[i].id) by {
        if !selected.contains(queue[i].id) {
            assert(gone.contains(queue[i]));
            let k = choose|k: int| 0 <= k < gone.len() && gone[k] == queue[i];
            assert(ids[k] == queue[i].id);
        }
        if ids.contains(queue[i].id) {
            let k = choose|k: int| 0 <= k < ids.len() && ids[k] == queue[i].id;
            assert(gone[k].id == queue[i].id);
        }
    }
    lemma_among_swap(queue, ids.to_set(), selected);
}

/// The ids of the jobs of a kind, in their order.
pub open spec fn ids_of_kind(queue: Seq<Job>, kind: Kind) -> Seq<Seq<char>>
    decreases queue.len(),
{
    if queue.len() == 0 {
        Seq::empty()
    } else {
        let head = ids_of_kind(queue.drop_last(), kind);
        if queue.last().status.is_of(kind) {
            head.push(queue.last().id)
        } else {
            head
        }
    }
}

/// The ids of the jobs in hand.
pub fn active_ids(queue: &Vec<QueueJob>) -> (ids: Vec<String>)
    ensures
        texts(ids@) == ids_of_kind(jobs(queue@), Kind::Active),
{
    let ghost view = jobs(queue@);
    let mut ids: Vec<String> = Vec::new();
    let mut i: usize = 0;
    assert(texts(ids@) =~= Seq::<Seq<char>>::empty());
    while i < queue.len()
        invariant
            view == jobs(queue@),
            i <= queue@.len(),
            texts(ids@) == ids_of_kind(view.take(i as int), Kind::Active),
        decreases queue@.len() - i,
    {
        let ghost before = texts(ids@);
        proof {
            assert(view.take(i + 1).drop_last() =~= view.take(i as int));
            assert(view.take(i + 1).last() == queue@[i as int]@);
        }
        if queue[i].status.is_active() {
            ids.push(queue[i].id.clone());
            assert(texts(ids@) =~= before.push(queue@[i as int].id@));
        }
        i = i + 1;
    }
    assert(view.take(queue@.len() as int) =~= view);
    ids
}

/// The queue after the jobs with the given ids were interrupted, one after the other.
pub open spec fn after_pauses(queue: Seq<Job>, ids: Seq<Seq<char>>) -> Seq<Job>
    decreases ids.len(),
{
    if ids.len() == 0 {
        queue
    } else {
        after_pause(after_pauses(queue, ids.drop_last()), ids.last())
    }
}

/// Interrupts all jobs in hand. Returns their ids.
pub fn pause_all_active(queue: &mut Vec<QueueJob>) -> (ids: Vec<String>)
    ensures
        texts(ids@) == ids_of_kind(jobs(old(queue)@), Kind::Active),
        jobs(final(queue)@) == after_pauses(
            jobs(old(queue)@),
            ids_of_kind(jobs(old(queue)@), Kind::Active),
        ),
{
    let ids = active_ids(queue);
    let ghost view = texts(ids@);
    let ghost start = jobs(queue@);
    let mut i: usize = 0;
    while i < ids.len()
        invariant
            view == texts(ids@),
            i <= ids@.len(),
            jobs(queue@) == after_pauses(start, view.take(i as int)),
        decreases ids@.len() - i,
    {
        proof {
            assert(view.take(i + 1).drop_last() =~= view.take(i as int));
            assert(view.take(i + 1).last() == ids@[i as int]@);
        }
        pause_job(queue, ids[i].as_str());
        i = i + 1;
    }
    assert(view.take(ids@.len() as int) =~= view);
    ids
}

/// No two jobs have one id.
pub open spec fn distinct_ids(queue: Seq<Job>) -> bool {
    forall|i: int, j: int|
        0 <= i < j < queue.len() ==> (#[trigger] queue[i]).id != (#[trigger] queue[j]).id
}

proof fn lemma_pauses(queue: Seq<Job>, ids: Seq<Seq<char>>)
    requires
        distinct_ids(queue),
    ensures
        after_pauses(queue, ids).len() == queue.len(),
        forall|i: int|
            0 <= i < queue.len() ==> #[trigger] after_pauses(queue, ids)[i] == if ids.contains(
                queue[i].id,
            ) {
                queue[i].paused()
            } else {
                queue[i]
            },
    decreases ids.len(),
{
    if ids.len() > 0 {
        let before = ids.drop_last();
        lemma_pauses(queue, before);
        let mid = after_pauses(queue, before);
        let id = ids.last();
        let after = after_pause(mid, id);
        lemma_first_with(mid, id);
        assert forall|i: int| 0 <= i < queue.len() implies #[trigger] mid[i].id == queue[i].id by {
            assert(after_pauses(queue, before)[i] == mid[i]);
        }
        assert forall|i: int| 0 <= i < queue.len() implies #[trigger] after[i] == if ids.contains(
            queue[i].id,
        ) {
            queue[i].paused()
        } else {
            queue[i]
        } by {
            assert(mid[i] == after_pauses(queue, before)[i]);
            assert(mid[i].id == queue[i].id);
            if before.contains(queue[i].id) {
                let k = choose|k: int| 0 <= k < before.len() && before[k] == queue[i].id;
                assert(ids[k] == queue[i].id);
            }
            if queue[i].id == id {
                assert(ids[ids.len() - 1] == id);
                let k = first_with(mid, id)->0;
                assert(mid[k].id == queue[k].id);
                if k != i {
                    if k < i {
                        assert(queue[k].id != queue[i].id);
                    } else {
                        assert(queue[i].id != queue[k].id);
                    }
                }
            } else {
                if ids.contains(queue[i].id) {
                    let k = choose|k: int| 0 <= k < ids.len() && ids[k] == queue[i].id;
                    assert(before[k] == queue[i].id);
                }
            }
        }
    }
}

proof fn lemma_ids_of_kind(queue: Seq<Job>, kind: Kind)
    requires
        distinct_ids(queue),
    ensures
        forall|i: int|
            0 <= i < queue.len() ==> (ids_of_kind(queue, kind).contains((#[trigger] queue[i]).id)
                <==> queue[i].status.is_of(kind)),
        forall|id: Seq<char>| #[trigger]
            ids_of_kind(queue, kind).contains(id) ==> exists|i: int|
                0 <= i < queue.len() && (#[trigger] queue[i]).id == id,
    decreases queue.len(),
{
    if queue.len() > 0 {
        let head = queue.drop_last();
        assert forall|i: int, j: int| 0 <= i < j < head.len() implies (#[trigger] head[i]).id != (
        #[trigger] head[j]).id by {
            assert(queue[i].id != queue[j].id);
        }
        lemma_ids_of_kind(head, kind);
        let before = ids_of_kind(head, kind);
        let after = ids_of_kind(queue, kind);
        let last = queue.len() - 1;
        assert forall|id: Seq<char>| #[trigger] after.contains(id) <==> before.contains(id) || (
        queue[last].status.is_of(kind) && id == queue[last].id) by {
            if before.contains(id) {
                let k = choose|k: int| 0 <= k < before.len() && before[k] == id;
                assert(after[k] == id);
            }
            if queue[last].status.is_of(kind) && id == queue[last].id {
                assert(after[before.len() as int] == id);
            }
        }
        assert forall|id: Seq<char>| #[trigger] after.contains(id) implies exists|i: int|
            0 <= i < queue.len() && (#[trigger] queue[i]).id == id by {
            if before.contains(id) {
                let i = choose|i: int| 0 <= i < head.len() && (#[trigger] head[i]).id == id;
                assert(queue[i].id == id);
            } else {
                assert(queue[last].id == id);
            }
        }
        assert forall|i: int| 0 <= i < queue.len() implies (after.contains((#[trigger] queue[i]).id)
            <==> queue[i].status.is_of(kind)) by {
            if i < last {
                assert(head[i] == queue[i]);
                assert(queue[i].id != queue[last].id);
            } else if before.contains(queue[last].id) {
                let k = choose|k: int|
                    0 <= k < head.len() && (#[trigger] head[k]).id == queue[last].id;
                assert(queue[k].id != queue[last].id);
            }
        }
    }
}

/// Interrupting all jobs in hand interrupts exactly those, where no two jobs have one id: none is
/// in hand afterwards, and the others are as they were.
pub proof fn law_pause_all(queue: Seq<Job>)
    requires
        distinct_ids(queue),
    ensures
        ({
            let after = after_pauses(queue, ids_of_kind(queue, Kind::Active));
            &&& after.len() == queue.len()
            &&& forall|i: int|
                0 <= i < queue.len() ==> #[trigger] after[i] == if queue[i].status.active() {
                    queue[i].paused()
                } else {
                    queue[i]
                }
        }),
{
    let ids = ids_of_kind(queue, Kind::Active);
    lemma_pauses(queue, ids);
    lemma_ids_of_kind(queue, Kind::Active);
    let after = after_pauses(queue, ids);
    assert forall|i: int| 0 <= i < queue.len() implies #[trigger] after[i]
        == if queue[i].status.active() {
        queue[i].paused()
    } else {
        queue[i]
    } by {
        assert(ids.contains(queue[i].id) <==> queue[i].status.is_of(Kind::Active));
    }
}

// ── Ids ──────────────────────────────────────────────────────────────────────
/// The value of a digit.
spec fn digit_value(c: char) -> int {
    if c as int >= 97 {
        c as int - 87
    } else {
        c as int - 48
    }
}

/// The number that hexadecimal digits write.
spec fn hex_number(text: Seq<char>) -> int
    decreases text.len(),
{
    if text.len() == 0 {
        0
    } else {
        16 * hex_number(text.drop_last()) + digit_value(text.last())
    }
}

proof fn lemma_hex_number(n: nat)
    ensures
        hex_number(numeral(n, 16)) == n,
    decreases n,
{
    reveal_with_fuel(hex_number, 2);
    if n < 16 {
        assert(numeral(n, 16).drop_last() =~= Seq::<char>::empty());
    } else {
        lemma_hex_number(n / 16);
        assert(numeral(n, 16).drop_last() =~= numeral(n / 16, 16));
    }
}

proof fn lemma_leading_zeros(k: nat, text: Seq<char>)
    ensures
        hex_number(Seq::new(k, |i: int| '0') + text) == hex_number(text),
    decreases text.len(), k,
{
    let zeros = Seq::new(k, |i: int| '0');
    let all = zeros + text;
    if text.len() > 0 {
        lemma_leading_zeros(k, text.drop_last());
        assert(all.drop_last() =~= zeros + text.drop_last());
    } else if k > 0 {
        lemma_leading_zeros((k - 1) as nat, text);
        assert(all.drop_last() =~= Seq::new((k - 1) as nat, |i: int| '0') + text);
    } else {
        assert(all =~= text);
    }
}

/// Jobs with different counters have different ids.
pub proof fn law_ids_differ(a: nat, b: nat)
    requires
        a != b,
    ensures
        id_text(a) != id_text(b),
{
    lemma_hex_number(a);
    lemma_hex_number(b);
    let x = numeral(a, 16);
    let y = numeral(b, 16);
    if x.len() < 8 {
        lemma_leading_zeros((8 - x.len()) as nat, x);
    }
    if y.len() < 8 {
        lemma_leading_zeros((8 - y.len()) as nat, y);
    }
}

/// A paused job that is resumed waits again, keeps what it had, and continues from what is there.
/// Every other job stays as it was.
pub proof fn law_pause_then_resume(queue: Seq<Job>, id: Seq<char>)
    ensures
        after_resume(after_pause(queue, id), id) == after_resume(queue, id),
        first_with(queue, id) matches Some(i) ==> after_resume(after_pause(queue, id), id)
            == queue.update(
            i,
            Job { status: Status::Waiting, resume: true, ..queue[i] },
        ),
        first_with(queue, id) is None ==> after_resume(after_pause(queue, id), id) == queue,
{
    lemma_first_with(queue, id);
    if let Some(i) = first_with(queue, id) {
        let paused = after_pause(queue, id);
        lemma_first_with(paused, id);
        assert(paused[i].id == id);
        assert(forall|j: int| 0 <= j < i ==> #[trigger] paused[j] == queue[j]);
        assert(first_with(paused, id) == Some(i));
        assert(after_resume(paused, id) =~= queue.update(
            i,
            Job { status: Status::Waiting, resume: true, ..queue[i] },
        ));
    }
}

// ── What the queue promises of each job ──────────────────────────────────────
/// A job's state is what the caller sees; a thread has it in hand while it is spooling, downloading
/// or verifying.
pub proof fn law_status(status: JobStatus)
    ensures
        status@ is Waiting <==> status is Waiting,
        status@ is Spooling <==> status is Spooling,
        status@ is Downloading <==> status is Downloading,
        status@ is Paused <==> status is Paused,
        status@ is Verifying <==> status is Verifying,
        status@ is Done <==> status is Done,
        status@ is Error <==> status is Error,
        status matches JobStatus::Error(e) ==> status@ == Status::Error(e@),
        status@.active() <==> status is Spooling || status is Downloading || status is Verifying,
        status@.is_of(Kind::Active) <==> status@.active(),
        status@.is_of(Kind::Waiting) <==> status is Waiting,
        status@.is_of(Kind::Paused) <==> status is Paused,
        status@.is_of(Kind::Failed) <==> status is Error,
        status@.is_of(Kind::Done) <==> status is Done,
        status@.is_of(Kind::Spooling) <==> status is Spooling,
{
}

/// What the queue says of a job is what stands in it.
pub proof fn law_job_fields(job: QueueJob)
    ensures
        job@.id == job.id@,
        job@.url == job.url@,
        job@.name == job.name@,
        job@.path == job.path@,
        job@.status == job.status@,
        job@.resume == job.resume,
        job@.retry_count == job.retry_count,
        job@.verified == job.verified,
        job@.file_size == job.file_size,
{
}

/// A job that was in hand is saved as one that waits and goes on from what is there; any other is
/// saved as it is.
pub proof fn law_job_saved(job: Job)
    ensures
        job.status is Spooling || job.status is Downloading || job.status is Verifying
            ==> job.saved() == (Job { status: Status::Waiting, resume: true, ..job }),
        !(job.status is Spooling || job.status is Downloading || job.status is Verifying)
            ==> job.saved() == job,
{
}

/// Pausing, resuming and marking change one job with the id, the first, and no other: a paused job
/// goes on from what is there, and so does one that is resumed.
pub proof fn law_one_job_changes(queue: Seq<Job>, id: Seq<char>, status: Status, i: int)
    requires
        0 <= i < queue.len(),
    ensures
        after_pause(queue, id).len() == queue.len(),
        after_resume(queue, id).len() == queue.len(),
        after_status(queue, id, status).len() == queue.len(),
        queue[i].id == id && (forall|k: int| 0 <= k < i ==> (#[trigger] queue[k]).id != id) ==> {
            &&& after_pause(queue, id)[i] == (Job {
                status: Status::Paused,
                resume: true,
                ..queue[i]
            })
            &&& after_resume(queue, id)[i] == (Job {
                status: Status::Waiting,
                resume: true,
                ..queue[i]
            })
            &&& after_status(queue, id, status)[i] == (Job { status, ..queue[i] })
        },
        queue[i].id != id || (exists|k: int| 0 <= k < i && (#[trigger] queue[k]).id == id) ==> {
            &&& after_pause(queue, id)[i] == queue[i]
            &&& after_resume(queue, id)[i] == queue[i]
            &&& after_status(queue, id, status)[i] == queue[i]
        },
{
    lemma_first_with(queue, id);
}

/// Jobs are counted one by one.
pub proof fn law_counted_jobs(queue: Seq<Job>, job: Job, kind: Kind)
    ensures
        number_of(Seq::empty(), kind) == 0,
        number_of(queue.push(job), kind) == number_of(queue, kind) + (if job.status.is_of(kind) {
            1nat
        } else {
            0
        }),
        ids_of_kind(Seq::empty(), kind) == Seq::<Seq<char>>::empty(),
        ids_of_kind(queue.push(job), kind) == (if job.status.is_of(kind) {
            ids_of_kind(queue, kind).push(job.id)
        } else {
            ids_of_kind(queue, kind)
        }),
{
    assert(queue.push(job).drop_last() =~= queue);
}

/// A new job waits from the start, with nothing fetched and nothing checked; the root is shown as a
/// slash.
pub proof fn law_new_job(
    id: Seq<char>,
    url: Seq<char>,
    name: Seq<char>,
    path: Seq<char>,
    file_size: u64,
)
    ensures
        ({
            let job = new_job(id, url, name, path, file_size);
            &&& job.id == id && job.url == url && job.name == name && job.path == path
            &&& job.file_size == file_size
            &&& job.status is Waiting
            &&& !job.resume
            &&& job.retry_count == 0
            &&& job.verified is None
        }),
        path.len() > 0 ==> shown_path(path) == path,
        shown_path(Seq::empty()) == "/"@,
{
}

/// A scan queues each file that is neither queued nor downloaded, in the order of the scan, each
/// under a number of its own.
pub proof fn law_scan_queued(
    files: Seq<ScanRow>,
    f: ScanRow,
    queued: Set<Seq<char>>,
    downloaded: Set<Seq<char>>,
    path: Seq<char>,
    counter: nat,
)
    ensures
        ({
            let before = scan_jobs(files, queued, downloaded, path, counter);
            let after = scan_jobs(files.push(f), queued, downloaded, path, counter);
            &&& scan_jobs(Seq::empty(), queued, downloaded, path, counter) == Seq::<Job>::empty()
            &&& queued.contains(f.url) || downloaded.contains(f.url) ==> after == before
            &&& !queued.contains(f.url) && !downloaded.contains(f.url) ==> after == before.push(
                Job {
                    id: id_text(counter + before.len()),
                    url: f.url,
                    name: f.name,
                    path,
                    status: Status::Waiting,
                    resume: false,
                    retry_count: 0,
                    verified: None,
                    file_size: f.file_size,
                },
            )
        }),
{
    assert(files.push(f).drop_last() =~= files);
}

/// The jobs that wait, in their order: those that were interrupted, and those that were not.
pub proof fn law_waiting_jobs(queue: Seq<Job>, job: Job, resume: bool)
    ensures
        waiting_jobs(Seq::empty(), resume) == Seq::<Job>::empty(),
        job.status is Waiting && job.resume == resume ==> waiting_jobs(queue.push(job), resume)
            == waiting_jobs(queue, resume).push(job),
        !(job.status is Waiting) || job.resume != resume ==> waiting_jobs(queue.push(job), resume)
            == waiting_jobs(queue, resume),
{
    assert(queue.push(job).drop_last() =~= queue);
}

/// As many waiting jobs are started as there is room for beside those in hand, interrupted ones
/// first and each kind in its order; none while the queue is paused.
pub proof fn law_started_jobs(queue: Seq<Job>, concurrent: nat, i: int)
    ensures
        jobs_to_start(queue, concurrent, true).len() == 0,
        ({
            let started = jobs_to_start(queue, concurrent, false);
            let again = waiting_jobs(queue, true);
            let fresh = waiting_jobs(queue, false);
            let active = number_of(queue, Kind::Active);
            &&& active >= concurrent ==> started.len() == 0
            &&& active < concurrent && again.len() + fresh.len() <= concurrent - active
                ==> started.len() == again.len() + fresh.len()
            &&& active < concurrent && again.len() + fresh.len() > concurrent - active
                ==> started.len() == concurrent - active
            &&& 0 <= i < started.len() && i < again.len() ==> started[i] == again[i]
            &&& again.len() <= i < started.len() ==> started[i] == fresh[i - again.len()]
        }),
{
}

/// Removing a job takes it out of the queue and its URL out of what is queued; the other jobs stay
/// in their order.
pub proof fn law_job_removed(state: QueueState, id: Seq<char>, i: int)
    ensures
        (forall|k: int| 0 <= k < state.queue.len() ==> (#[trigger] state.queue[k]).id != id)
            ==> state.without(id) == state,
        0 <= i < state.queue.len() && state.queue[i].id == id && (forall|k: int|
            0 <= k < i ==> (#[trigger] state.queue[k]).id != id) ==> state.without(id).queue
            == state.queue.take(i) + state.queue.skip(i + 1) && state.without(id).queued
            == state.queued.remove(state.queue[i].url),
{
    lemma_first_with(state.queue, id);
    if 0 <= i < state.queue.len() && state.queue[i].id == id && (forall|k: int|
        0 <= k < i ==> (#[trigger] state.queue[k]).id != id) {
        assert(first_with(state.queue, id) == Some(i));
        assert(state.queue.remove(i) =~= state.queue.take(i) + state.queue.skip(i + 1));
    }
}

/// Removing and pausing many jobs is removing and pausing them one after the other.
pub proof fn law_one_after_the_other(
    state: QueueState,
    queue: Seq<Job>,
    ids: Seq<Seq<char>>,
    id: Seq<char>,
)
    ensures
        state.without_all(Seq::empty()) == state,
        state.without_all(ids.push(id)) == state.without_all(ids).without(id),
        after_pauses(queue, Seq::empty()) == queue,
        after_pauses(queue, ids.push(id)) == after_pause(after_pauses(queue, ids), id),
{
    assert(ids.push(id).drop_last() =~= ids);
}

/// The jobs that are selected, or those that are not, in their order.
pub proof fn law_jobs_among(queue: Seq<Job>, job: Job, ids: Set<Seq<char>>)
    ensures
        jobs_among(Seq::empty(), ids, true) == Seq::<Job>::empty(),
        jobs_among(Seq::empty(), ids, false) == Seq::<Job>::empty(),
        ids.contains(job.id) ==> jobs_among(queue.push(job), ids, true) == jobs_among(
            queue,
            ids,
            true,
        ).push(job) && jobs_among(queue.push(job), ids, false) == jobs_among(queue, ids, false),
        !ids.contains(job.id) ==> jobs_among(queue.push(job), ids, false) == jobs_among(
            queue,
            ids,
            false,
        ).push(job) && jobs_among(queue.push(job), ids, true) == jobs_among(queue, ids, true),
{
    assert(queue.push(job).drop_last() =~= queue);
}

/// A number as a job's id: its hexadecimal digits, with zeros in front up to eight.
pub proof fn law_id_text(counter: nat, i: int)
    ensures
        id_text(counter).len() >= 8,
        id_text(counter).len() >= numeral(counter, 16).len(),
        id_text(counter).len() > 8 ==> id_text(counter) == numeral(counter, 16),
        0 <= i < numeral(counter, 16).len() ==> id_text(counter)[id_text(counter).len() - numeral(
            counter,
            16,
        ).len() + i] == numeral(counter, 16)[i],
        0 <= i < id_text(counter).len() - numeral(counter, 16).len() ==> id_text(counter)[i] == '0',
{
    law_zero_padded(numeral(counter, 16), 8, i);
}

/// A job's state is told apart by what is shown of it.
pub proof fn law_status_texts(a: Status, b: Status)
    ensures
        a.plain_text() == b.plain_text() <==> (a is Waiting && b is Waiting) || (a is Spooling
            && b is Spooling) || (a is Downloading && b is Downloading) || (a is Paused
            && b is Paused) || (a is Verifying && b is Verifying) || (a is Done && b is Done) || (
        a is Error && b is Error),
        a.text() == b.text() <==> a.plain_text() == b.plain_text(),
{
    reveal_strlit("waiting");
    reveal_strlit("spooling");
    reveal_strlit("active");
    reveal_strlit("paused");
    reveal_strlit("verify");
    reveal_strlit("done");
    reveal_strlit("error");
    reveal_strlit("○ waiting");
    reveal_strlit("◌ spooling");
    reveal_strlit("⟳ active");
    reveal_strlit("⏸ paused");
    reveal_strlit("⧗ verifying");
    reveal_strlit("✓ done");
    reveal_strlit("✕ error");
    assert("waiting"@[0] == 'w' && "spooling"@[0] == 's' && "active"@[0] == 'a' && "paused"@[0]
        == 'p' && "verify"@[0] == 'v' && "done"@[0] == 'd' && "error"@[0] == 'e');
    assert("○ waiting"@[0] == '○' && "◌ spooling"@[0] == '◌' && "⟳ active"@[0] == '⟳'
        && "⏸ paused"@[0] == '⏸' && "⧗ verifying"@[0] == '⧗' && "✓ done"@[0] == '✓'
        && "✕ error"@[0] == '✕');
}

/// Jobs are told one by one, and so are their URLs and ids.
pub proof fn law_jobs(queue: Seq<QueueJob>, files: Seq<ScannedFile>, i: int)
    ensures
        jobs(queue).len() == queue.len(),
        urls_of(jobs(queue)).len() == queue.len(),
        ids_of(jobs(queue)).len() == queue.len(),
        scanned(files).len() == files.len(),
        0 <= i < queue.len() ==> jobs(queue)[i] == queue[i]@ && urls_of(jobs(queue))[i]
            == queue[i].url@ && ids_of(jobs(queue))[i] == queue[i].id@,
        0 <= i < files.len() ==> scanned(files)[i].url == files[i].url@ && scanned(files)[i].name
            == files[i].name@ && scanned(files)[i].file_size == files[i].file_size,
{
}

} // verus!
