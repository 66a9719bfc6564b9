//! The queue pane and the window's title.

use crate::browser::{Browser, BrowserState};
use crate::format::{count_of, counted, decimal_size, eta, fmt_eta, fmt_size};
use crate::queue::{count_jobs, jobs, number_of, Job, Kind, QueueJob};
use crate::strmap::StrSet;
use crate::text::{concat, concat3, decimal, decimal_text};
use vstd::prelude::*;

verus! {

/// What is selected in the queue pane, and the row from which a range is selected.
pub struct QueuePane {
    pub selected: StrSet,
    pub last_click: Option<usize>,
}

#[verifier::ext_equal]
pub struct PaneState {
    pub selected: Set<Seq<char>>,
    pub last_click: Option<usize>,
}

impl View for QueuePane {
    type V = PaneState;

    open spec fn view(&self) -> PaneState {
        PaneState { selected: self.selected@, last_click: self.last_click }
    }
}

/// The ids of the jobs `lo..=hi`.
pub open spec fn range_ids(queue: Seq<Job>, lo: int, hi: int) -> Set<Seq<char>>
    decreases hi - lo + 1,
{
    if hi < lo {
        Set::empty()
    } else {
        let before = range_ids(queue, lo, hi - 1);
        if 0 <= hi < queue.len() {
            before.insert(queue[hi].id)
        } else {
            before
        }
    }
}

impl PaneState {
    pub open spec fn flipped(self, id: Seq<char>) -> Set<Seq<char>> {
        if self.selected.contains(id) {
            self.selected.remove(id)
        } else {
            self.selected.insert(id)
        }
    }

    /// After a click on row `i`: the job is selected, or deselected. With shift all jobs from the
    /// row that was clicked last are selected.
    pub open spec fn after_click(self, queue: Seq<Job>, i: usize, shift: bool) -> PaneState {
        let id = queue[i as int].id;
        if shift {
            match self.last_click {
                Some(last) => PaneState {
                    selected: self.selected.union(
                        range_ids(
                            queue,
                            if last < i {
                                last as int
                            } else {
                                i as int
                            },
                            if last < i {
                                i as int
                            } else {
                                last as int
                            },
                        ),
                    ),
                    last_click: Some(i),
                },
                None => PaneState { selected: self.flipped(id), last_click: Some(i) },
            }
        } else {
            PaneState {
                selected: self.flipped(id),
                last_click: if self.selected.contains(id) {
                    None
                } else {
                    Some(i)
                },
            }
        }
    }
}

/// Rows past the last one add nothing.
proof fn lemma_ids_past_end(queue: Seq<Job>, lo: int, from: int, hi: int)
    requires
        from >= queue.len() - 1,
        lo - 1 <= from <= hi,
    ensures
        range_ids(queue, lo, hi) == range_ids(queue, lo, from),
    decreases hi - from,
{
    if from < hi {
        lemma_ids_past_end(queue, lo, from, hi - 1);
    }
}

impl QueuePane {
    pub open spec fn wf(&self) -> bool {
        self.selected.wf()
    }

    pub fn new() -> (pane: Self)
        ensures
            pane.wf(),
            pane@ == (PaneState { selected: Set::empty(), last_click: None }),
    {
        QueuePane { selected: StrSet::new(), last_click: None }
    }

    fn flip(&mut self, id: &str)
        requires
            old(self).wf(),
        ensures
            final(self).wf(),
            final(self)@ == (PaneState { selected: old(self)@.flipped(id@), ..old(self)@ }),
    {
        if self.selected.contains(id) {
            self.selected.remove(id);
        } else {
            self.selected.insert(id.to_owned());
        }
    }

    fn select_rows(&mut self, queue: &Vec<QueueJob>, lo: usize, hi: usize)
        requires
            old(self).wf(),
            lo <= hi,
        ensures
            final(self).wf(),
            final(self)@ == (PaneState {
                selected: old(self)@.selected.union(
                    range_ids(jobs(queue@), lo as int, hi as int),
                ),
                ..old(self)@
            }),
    {
        let ghost view = jobs(queue@);
        let ghost start = self@.selected;
        let n: usize = queue.len();
        let mut i: usize = lo;
        assert(self@.selected =~= start.union(range_ids(view, lo as int, lo - 1)));
        while i < n && i <= hi
            invariant
                self.wf(),
                view == jobs(queue@),
                n == queue@.len(),
                lo <= i <= hi + 1,
                self.last_click == old(self).last_click,
                self@.selected == start.union(range_ids(view, lo as int, i - 1)),
            decreases n - i,
        {
            assert(view[i as int] == queue@[i as int]@);
            self.selected.insert(queue[i].id.clone());
            assert(self@.selected =~= start.union(range_ids(view, lo as int, i as int)));
            i = i + 1;
        }
        proof {
            if i <= hi {
                lemma_ids_past_end(view, lo as int, i - 1, hi as int);
            }
        }
    }

    /// A click on row `i`.
    pub fn click(&mut self, queue: &Vec<QueueJob>, i: usize, shift: bool)
        requires
            old(self).wf(),
            i < queue@.len(),
        ensures
            final(self).wf(),
            final(self)@ == old(self)@.after_click(jobs(queue@), i, shift),
    {
        let id = queue[i].id.clone();
        assert(jobs(queue@)[i as int] == queue@[i as int]@);
        if shift {
            match self.last_click {
                Some(last) => {
                    if last < i {
                        self.select_rows(queue, last, i);
                    } else {
                        self.select_rows(queue, i, last);
                    }
                },
                None => {
                    self.flip(id.as_str());
                },
            }
            self.last_click = Some(i);
        } else {
            let was: bool = self.selected.contains(id.as_str());
            self.flip(id.as_str());
            self.last_click = if was {
                None
            } else {
                Some(i)
            };
        }
        assert(self@ =~= old(self)@.after_click(jobs(queue@), i, shift));
    }
}

// ── Texts ────────────────────────────────────────────────────────────────────
/// The bytes of all jobs.
pub open spec fn total_size(queue: Seq<Job>) -> nat
    decreases queue.len(),
{
    if queue.len() == 0 {
        0
    } else {
        total_size(queue.drop_last()) + queue.last().file_size as nat
    }
}

proof fn lemma_total_prefix(queue: Seq<Job>, n: int)
    requires
        0 <= n <= queue.len(),
    ensures
        total_size(queue.take(n)) <= total_size(queue),
    decreases queue.len(),
{
    if n < queue.len() {
        lemma_total_prefix(queue.drop_last(), n);
        assert(queue.drop_last().take(n) =~= queue.take(n));
    } else {
        assert(queue.take(n) =~= queue);
    }
}

/// The bytes of all jobs.
pub fn sum_sizes(queue: &Vec<QueueJob>) -> (sum: u64)
    requires
        total_size(jobs(queue@)) <= u64::MAX,
    ensures
        sum as nat == total_size(jobs(queue@)),
{
    let ghost view = jobs(queue@);
    let mut sum: u64 = 0;
    let mut i: usize = 0;
    while i < queue.len()
        invariant
            view == jobs(queue@),
            total_size(view) <= u64::MAX,
            i <= queue@.len(),
            sum as nat == total_size(view.take(i as int)),
        decreases queue@.len() - i,
    {
        proof {
            lemma_total_prefix(view, i + 1);
            assert(view.take(i + 1).drop_last() =~= view.take(i as int));
            assert(view.take(i + 1).last() == queue@[i as int]@);
        }
        sum = sum + queue[i].file_size;
        i = i + 1;
    }
    assert(view.take(queue@.len() as int) =~= view);
    sum
}

/// The queue's totals: how many items, and how many bytes where that is known.
pub fn queue_totals(queue: &Vec<QueueJob>) -> (text: String)
    requires
        total_size(jobs(queue@)) <= u64::MAX,
    ensures
        text@ == counted(queue@.len(), "item"@, "s"@) + if total_size(jobs(queue@)) > 0 {
            "  ·  "@ + decimal_size(total_size(jobs(queue@)), " "@)
        } else {
            Seq::empty()
        },
{
    let count = count_of(queue.len(), "item", "s");
    let total: u64 = sum_sizes(queue);
    if total > 0 {
        let text = concat3(count.as_str(), "  ·  ", fmt_size(total).as_str());
        assert(text@ =~= counted(queue@.len(), "item"@, "s"@) + ("  ·  "@ + decimal_size(
            total as nat,
            " "@,
        )));
        text
    } else {
        assert(count@ =~= count@ + Seq::<char>::empty());
        count
    }
}

/// What is said of failures: nothing where there are none.
pub open spec fn failed_text(sep: Seq<char>, n: nat) -> Seq<char> {
    if n > 0 {
        sep + decimal(n) + " failed"@
    } else {
        Seq::empty()
    }
}

fn failed_label(sep: &str, n: usize) -> (text: String)
    ensures
        text@ == failed_text(sep@, n as nat),
{
    if n > 0 {
        concat3(sep, decimal_text(n as u64).as_str(), " failed")
    } else {
        let none = String::new();
        assert(none@ =~= Seq::<char>::empty());
        none
    }
}

/// The line under the queue.
pub open spec fn footer_text(queue: Seq<Job>, active: nat) -> Seq<char> {
    let failures = failed_text("  ·  "@, number_of(queue, Kind::Failed));
    if queue.len() == 0 {
        "No items queued"@
    } else if active > 0 {
        decimal(active) + " active  ·  "@ + decimal(number_of(queue, Kind::Waiting)) + " waiting"@
            + failures
    } else {
        decimal(number_of(queue, Kind::Waiting)) + " waiting  ·  "@ + decimal(
            number_of(queue, Kind::Paused),
        ) + " paused"@ + failures
    }
}

/// The line under the queue.
pub fn footer(queue: &Vec<QueueJob>, active: usize) -> (text: String)
    ensures
        text@ == footer_text(jobs(queue@), active as nat),
{
    if queue.len() == 0 {
        return "No items queued".to_owned();
    }
    let waiting = decimal_text(count_jobs(queue, Kind::Waiting) as u64);
    let paused = decimal_text(count_jobs(queue, Kind::Paused) as u64);
    let failures = failed_label("  ·  ", count_jobs(queue, Kind::Failed));
    if active > 0 {
        let head = concat3(decimal_text(active as u64).as_str(), " active  ·  ", waiting.as_str());
        concat3(head.as_str(), " waiting", failures.as_str())
    } else {
        let head = concat3(waiting.as_str(), " waiting  ·  ", paused.as_str());
        concat3(head.as_str(), " paused", failures.as_str())
    }
}

/// The window's title. `speed` is the speed of all downloads, where they have one.
pub open spec fn title_text(active: nat, waiting: nat, queued: nat, speed: Option<Seq<char>>) -> Seq<
    char,
> {
    let counts = decimal(active) + " active  ·  "@ + decimal(waiting) + " queued"@;
    if active > 0 {
        match speed {
            Some(s) => "myrient-dl  —  ↓ "@ + s + "  ·  "@ + counts,
            None => "myrient-dl  —  "@ + counts,
        }
    } else if queued > 0 {
        "myrient-dl  —  "@ + decimal(waiting) + " queued"@
    } else {
        "myrient-dl"@
    }
}

/// The window's title.
pub fn window_title(queue: &Vec<QueueJob>, active: usize, speed: Option<&str>) -> (text: String)
    ensures
        text@ == title_text(
            active as nat,
            number_of(jobs(queue@), Kind::Waiting),
            queue@.len(),
            match speed {
                Some(s) => Some(s@),
                None => None,
            },
        ),
{
    let waiting = decimal_text(count_jobs(queue, Kind::Waiting) as u64);
    if active > 0 {
        let head = concat3(decimal_text(active as u64).as_str(), " active  ·  ", waiting.as_str());
        let counts = concat(head.as_str(), " queued");
        match speed {
            Some(s) => {
                let start = concat3("myrient-dl  —  ↓ ", s, "  ·  ");
                concat(start.as_str(), counts.as_str())
            },
            None => concat("myrient-dl  —  ", counts.as_str()),
        }
    } else if queue.len() > 0 {
        concat3("myrient-dl  —  ", waiting.as_str(), " queued")
    } else {
        "myrient-dl".to_owned()
    }
}

/// How many of the slots are taken.
pub fn slots_text(active: usize, concurrent: usize) -> (text: String)
    ensures
        text@ == decimal(active as nat) + "/"@ + decimal(concurrent as nat) + " slots"@,
{
    let head = concat3(
        decimal_text(active as u64).as_str(),
        "/",
        decimal_text(concurrent as u64).as_str(),
    );
    concat(head.as_str(), " slots")
}

/// How far a download is: its percentage, its speed where it has one, and the seconds that are
/// left where they are known.
pub open spec fn progress_line(percent: nat, speed: Option<Seq<char>>, secs: Option<nat>) -> Seq<
    char,
> {
    decimal(percent) + "%  "@ + (match speed {
        Some(s) => s,
        None => "…"@,
    }) + "  ETA "@ + (match secs {
        Some(n) => eta(n),
        None => "…"@,
    })
}

/// How far a download is.
pub fn progress_text(percent: u32, speed: Option<&str>, eta_secs: Option<u64>) -> (text: String)
    ensures
        text@ == progress_line(
            percent as nat,
            match speed {
                Some(s) => Some(s@),
                None => None,
            },
            match eta_secs {
                Some(n) => Some(n as nat),
                None => None,
            },
        ),
{
    let rate: &str = match speed {
        Some(s) => s,
        None => "…",
    };
    let left: String = match eta_secs {
        Some(n) => fmt_eta(n),
        None => "…".to_owned(),
    };
    let head = concat3(decimal_text(percent as u64).as_str(), "%  ", rate);
    concat3(head.as_str(), "  ETA ", left.as_str())
}

// ── The end of the downloads ─────────────────────────────────────────────────
impl BrowserState {
    /// After a look at the downloads: when the last one has ended, it is said how they came out.
    pub open spec fn after_look(self, queue: Seq<Job>, active: nat) -> BrowserState {
        if active > 0 {
            BrowserState { status_active: true, ..self }
        } else if self.status_active && number_of(queue, Kind::Spooling) == 0 {
            let done = number_of(queue, Kind::Done);
            let failed = number_of(queue, Kind::Failed);
            BrowserState {
                status_active: false,
                status_msg: if done + failed > 0 {
                    "Finished — "@ + decimal(done) + " done"@ + failed_text(", "@, failed)
                } else {
                    self.status_msg
                },
                ..self
            }
        } else {
            self
        }
    }
}

impl Browser {
    /// A look at the downloads, of which `active` are in hand.
    pub fn look_at_downloads(&mut self, queue: &Vec<QueueJob>, active: usize)
        requires
            old(self).wf(),
        ensures
            final(self).wf(),
            final(self)@ == old(self)@.after_look(jobs(queue@), active as nat),
    {
        if active > 0 {
            self.status_active = true;
        } else if self.status_active && count_jobs(queue, Kind::Spooling) == 0 {
            let done: usize = count_jobs(queue, Kind::Done);
            let failed: usize = count_jobs(queue, Kind::Failed);
            self.status_active = false;
            if done > 0 || failed > 0 {
                let failures = failed_label(", ", failed);
                let head = concat3("Finished — ", decimal_text(done as u64).as_str(), " done");
                self.status_msg = concat(head.as_str(), failures.as_str());
            }
        }
        assert(self@ =~= old(self)@.after_look(jobs(queue@), active as nat));
    }
}

/// A click that selects a job is undone by another click on it.
pub proof fn law_click_twice(state: PaneState, queue: Seq<Job>, i: usize)
    requires
        i < queue.len(),
    ensures
        state.after_click(queue, i, false).after_click(queue, i, false).selected == state.selected,
{
    let id = queue[i as int].id;
    let twice = state.after_click(queue, i, false).after_click(queue, i, false);
    assert(twice.selected =~= state.selected);
}

/// A range holds the jobs from one row to the other, both included.
pub proof fn law_range_ids(queue: Seq<Job>, lo: int, hi: int, id: Seq<char>)
    ensures
        range_ids(queue, lo, hi).contains(id) <==> exists|k: int|
            lo <= k <= hi && 0 <= k < queue.len() && (#[trigger] queue[k]).id == id,
    decreases hi - lo + 1,
{
    if lo <= hi {
        law_range_ids(queue, lo, hi - 1, id);
        let before = range_ids(queue, lo, hi - 1);
        if range_ids(queue, lo, hi).contains(id) && !before.contains(id) {
            assert(queue[hi].id == id);
        }
        if exists|k: int| lo <= k <= hi && 0 <= k < queue.len() && (#[trigger] queue[k]).id == id {
            let k = choose|k: int|
                lo <= k <= hi && 0 <= k < queue.len() && (#[trigger] queue[k]).id == id;
            if k < hi {
                assert(before.contains(id));
            }
        }
    }
}

/// A click selects a job, or deselects it where it was selected; with shift all jobs from the row
/// that was clicked last are selected too. The others stay as they were.
pub proof fn law_pane_click(state: PaneState, queue: Seq<Job>, i: usize, id: Seq<char>)
    requires
        i < queue.len(),
    ensures
        ({
            let own = queue[i as int].id;
            let plain = state.after_click(queue, i, false);
            let shift = state.after_click(queue, i, true);
            &&& plain.selected.contains(own) <==> !state.selected.contains(own)
            &&& id != own ==> (plain.selected.contains(id) <==> state.selected.contains(id))
            &&& state.selected.contains(own) ==> plain.last_click is None
            &&& !state.selected.contains(own) ==> plain.last_click == Some(i)
            &&& shift.last_click == Some(i)
            &&& state.last_click is None ==> shift.selected == plain.selected
            &&& state.last_click is Some && state.last_click->0 <= i ==> (shift.selected.contains(
                id,
            ) <==> state.selected.contains(id) || range_ids(
                queue,
                state.last_click->0 as int,
                i as int,
            ).contains(id))
            &&& state.last_click is Some && i <= state.last_click->0 ==> (shift.selected.contains(
                id,
            ) <==> state.selected.contains(id) || range_ids(
                queue,
                i as int,
                state.last_click->0 as int,
            ).contains(id))
        }),
{
}

/// The bytes of the queue are those of its jobs.
pub proof fn law_total_size(queue: Seq<Job>, job: Job)
    ensures
        total_size(Seq::empty()) == 0,
        total_size(queue.push(job)) == total_size(queue) + job.file_size,
{
    assert(queue.push(job).drop_last() =~= queue);
}

/// What stands under the queue: what is active and what waits, or what waits and what is paused;
/// failures only where there are any.
pub proof fn law_footer(queue: Seq<Job>, active: nat)
    ensures
        ({
            let waiting = decimal(number_of(queue, Kind::Waiting));
            let paused = decimal(number_of(queue, Kind::Paused));
            let failed = number_of(queue, Kind::Failed);
            let text = footer_text(queue, active);
            &&& queue.len() == 0 ==> text == "No items queued"@
            &&& queue.len() > 0 && active > 0 && failed == 0 ==> text =~= decimal(active)
                + " active  ·  "@ + waiting + " waiting"@
            &&& queue.len() > 0 && active == 0 && failed == 0 ==> text =~= waiting
                + " waiting  ·  "@ + paused + " paused"@
            &&& queue.len() > 0 && active > 0 && failed > 0 ==> text =~= decimal(active)
                + " active  ·  "@ + waiting + " waiting"@ + "  ·  "@ + decimal(failed) + " failed"@
            &&& queue.len() > 0 && active == 0 && failed > 0 ==> text =~= waiting
                + " waiting  ·  "@ + paused + " paused"@ + "  ·  "@ + decimal(failed) + " failed"@
        }),
{
}

/// The window's title: the speed where it is known, what is active and what waits; nothing but the
/// program's name where the queue is empty.
pub proof fn law_title(active: nat, waiting: nat, queued: nat, speed: Seq<char>)
    ensures
        title_text(0, waiting, 0, None) == "myrient-dl"@,
        title_text(0, waiting, 0, Some(speed)) == "myrient-dl"@,
        queued > 0 ==> title_text(0, waiting, queued, None) =~= "myrient-dl  —  "@ + decimal(waiting)
            + " queued"@,
        queued > 0 ==> title_text(0, waiting, queued, Some(speed)) =~= "myrient-dl  —  "@ + decimal(
            waiting,
        ) + " queued"@,
        active > 0 ==> title_text(active, waiting, queued, None) =~= "myrient-dl  —  "@ + decimal(
            active,
        ) + " active  ·  "@ + decimal(waiting) + " queued"@,
        active > 0 ==> title_text(active, waiting, queued, Some(speed)) =~= "myrient-dl  —  ↓ "@
            + speed + "  ·  "@ + decimal(active) + " active  ·  "@ + decimal(waiting)
            + " queued"@,
{
}

/// The line of a running download: its percentage, its speed and the time that is left.
pub proof fn law_progress_line(percent: nat, speed: Seq<char>, secs: nat)
    ensures
        progress_line(percent, Some(speed), Some(secs)) =~= decimal(percent) + "%  "@ + speed
            + "  ETA "@ + eta(secs),
        progress_line(percent, None, None) =~= decimal(percent) + "%  …  ETA …"@,
{
    reveal_strlit("%  ");
    reveal_strlit("…");
    reveal_strlit("  ETA ");
    reveal_strlit("%  …  ETA …");
}

/// The end of all downloads is told once: when nothing is active any more and nothing is about to
/// be, with what is done and what failed.
pub proof fn law_end_told(state: BrowserState, queue: Seq<Job>, active: nat)
    ensures
        active > 0 ==> state.after_look(queue, active) == (BrowserState {
            status_active: true,
            ..state
        }),
        active == 0 && (!state.status_active || number_of(queue, Kind::Spooling) > 0)
            ==> state.after_look(queue, 0) == state,
        active == 0 && state.status_active && number_of(queue, Kind::Spooling) == 0 ==> ({
            let after = state.after_look(queue, 0);
            let done = number_of(queue, Kind::Done);
            let failed = number_of(queue, Kind::Failed);
            &&& !after.status_active
            &&& done == 0 && failed == 0 ==> after.status_msg == state.status_msg
            &&& done > 0 && failed == 0 ==> after.status_msg =~= "Finished — "@ + decimal(done)
                + " done"@
            &&& failed > 0 ==> after.status_msg =~= "Finished — "@ + decimal(done) + " done"@
                + ", "@ + decimal(failed) + " failed"@
            &&& after == (BrowserState {
                status_active: false,
                status_msg: after.status_msg,
                ..state
            })
        }),
{
}

} // verus!
